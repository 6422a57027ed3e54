//! The longest-Lyndon-subsequence search: a depth-first traversal over an
//! implicit tree of candidate subsequences. Each tree node is a stack of
//! positions; a node's children extend the candidate by one byte, taken in
//! ascending byte order through successor queries. A table of rightmost
//! completion positions prunes dominated candidates.

use vstd::prelude::*;

use crate::words::is_lyndon;
use crate::words::is_pre_lyndon;
use crate::words::lemma_pre_lyndon_extend;
use crate::words::lemma_pre_lyndon_periodic_push;

verus! {

/// One entry of the candidate stack: a position in the text together with
/// the period of the candidate prefix that ends at this entry.
#[derive(Debug, Copy, Clone)]
pub struct StackElement {
    pub text_pos: usize,
    pub period: usize,
}

/// The bytes of `text` at the recorded positions, in order.
pub open spec fn project(text: Seq<u8>, stack: Seq<StackElement>) -> Seq<u8> {
    Seq::new(stack.len(), |i: int| text[stack[i].text_pos as int])
}

/// The byte of `text` at the position that `r[j]` records.
pub open spec fn byte_at(text: Seq<u8>, r: Seq<usize>, j: int) -> u8 {
    text[r[j] as int]
}

/// Some entry of `r` records a position whose byte equals the byte at
/// position `q` of `text`.
pub open spec fn covers(text: Seq<u8>, r: Seq<usize>, q: int) -> bool {
    exists|j: int| 0 <= j < r.len() && #[trigger] byte_at(text, r, j) == text[q]
}

/// What the distinct-leftmost enumeration returns: positions inside `text`,
/// in strictly ascending order of their byte values, each the leftmost
/// occurrence of its value, and one for every byte value present in `text`.
pub open spec fn distinct_leftmost_matches(text: Seq<u8>, r: Seq<usize>) -> bool {
    &&& forall|j: int| 0 <= j < r.len() ==> ((#[trigger] r[j]) as int) < text.len()
    &&& forall|a: int, b: int| 0 <= a < b < r.len() ==> byte_at(text, r, a) < byte_at(text, r, b)
    &&& forall|j: int, q: int|
        #![trigger text[q], byte_at(text, r, j)]
        0 <= j < r.len() && 0 <= q < r[j] as int ==> text[q] != byte_at(text, r, j)
    &&& forall|q: int| 0 <= q < text.len() ==> #[trigger] covers(text, r, q)
}

/// What a successor query returns: the position of the leftmost occurrence
/// of the smallest byte value at least `value` within `text[start..]`, or
/// nothing exactly when no byte there reaches `value`.
pub open spec fn successor_matches(text: Seq<u8>, start: int, value: u8, r: Option<int>) -> bool {
    match r {
        Some(i) => {
            &&& start <= i < text.len()
            &&& text[i] >= value
            &&& forall|j: int|
                start <= j < text.len() && #[trigger] text[j] >= value ==> text[i] <= text[j]
            &&& forall|j: int| start <= j < i ==> !(value <= #[trigger] text[j] <= text[i])
        },
        None => forall|j: int| start <= j < text.len() ==> #[trigger] text[j] < value,
    }
}

/// An option over machine positions, as an option over mathematical ones.
pub open spec fn to_int_option(r: Option<usize>) -> Option<int> {
    match r {
        Some(i) => Some(i as int),
        None => None,
    }
}

/// Some well-formed candidate of length `len` completes a Lyndon word at
/// text position `pos`.
pub open spec fn completed_at(text: Seq<u8>, len: int, pos: int) -> bool {
    exists|st: Seq<StackElement>|
        #![trigger valid_stack(text, st)]
        valid_stack(text, st) && st.len() == len && st[len - 1].text_pos as int == pos
            && is_lyndon(project(text, st))
}

/// The meaning of the completion table: every filled entry `larray[l]` holds
/// a text position at which some well-formed candidate of length `l + 1`
/// completed a Lyndon word during the search.
#[verifier::opaque]
pub open spec fn table_witnessed(text: Seq<u8>, larray: Seq<usize>) -> bool {
    forall|l: int|
        0 <= l < larray.len() && larray[l] != usize::MAX ==> #[trigger] completed_at(
            text,
            l + 1,
            larray[l] as int,
        )
}

/// Recording a freshly completed Lyndon candidate keeps the completion
/// table witnessed.
proof fn lemma_table_update_witnessed(
    text: Seq<u8>,
    pre: Seq<usize>,
    larray: Seq<usize>,
    pushed: Seq<StackElement>,
    new_len: int,
    i: usize,
)
    requires
        table_witnessed(text, pre),
        0 <= new_len - 1 < pre.len(),
        larray == pre.update(new_len - 1, i),
        valid_stack(text, pushed),
        pushed.len() == new_len,
        pushed[new_len - 1].text_pos == i,
        is_lyndon(project(text, pushed)),
        i != usize::MAX,
    ensures
        table_witnessed(text, larray),
{
    reveal(table_witnessed);
    assert(completed_at(text, new_len, i as int));
    assert forall|l: int|
        0 <= l < larray.len() && larray[l] != usize::MAX implies #[trigger] completed_at(
        text,
        l + 1,
        larray[l] as int,
    ) by {
        if l != new_len - 1 {
            assert(larray[l] == pre[l]);
        }
    }
}

/// Well-formedness of a candidate stack over `text`: positions are in range
/// and strictly increasing, each period is positive and at most the length
/// of the prefix it closes, each prefix of the projected word is a prefix of
/// the infinite repetition of a Lyndon word of its period's length, and each
/// appended byte is at least the byte its predecessor's period predicted.
pub open spec fn valid_stack(text: Seq<u8>, stack: Seq<StackElement>) -> bool {
    let w = project(text, stack);
    &&& forall|k: int|
        0 <= k < stack.len() ==> ((#[trigger] stack[k]).text_pos as int) < text.len()
    &&& forall|k: int| 0 <= k < stack.len() ==> k <= (#[trigger] stack[k]).text_pos as int
    &&& forall|k: int|
        0 < k < stack.len() ==> ((#[trigger] stack[k]).text_pos as int) > stack[k
            - 1].text_pos as int
    &&& forall|k: int| 0 <= k < stack.len() ==> 1 <= (#[trigger] stack[k]).period as int <= k + 1
    &&& forall|k: int|
        0 <= k < stack.len() ==> is_pre_lyndon(
            w.subrange(0, k + 1),
            (#[trigger] stack[k]).period as int,
        )
    &&& forall|k: int|
        0 < k < stack.len() ==> (#[trigger] w[k]) >= w[k - stack[k - 1].period]
}

/// Appending an entry keeps a stack well-formed, given the facts that the
/// search establishes for the new entry.
pub proof fn lemma_valid_stack_push(text: Seq<u8>, stack: Seq<StackElement>, e: StackElement)
    requires
        valid_stack(text, stack),
        (e.text_pos as int) < text.len(),
        stack.len() <= e.text_pos as int,
        1 <= e.period as int <= stack.len() + 1,
        stack.len() > 0 ==> (stack[stack.len() - 1].text_pos as int) < e.text_pos as int,
        is_pre_lyndon(project(text, stack.push(e)), e.period as int),
        stack.len() > 0 ==> text[e.text_pos as int] >= text[stack[stack.len() - stack[stack.len()
            - 1].period].text_pos as int],
    ensures
        valid_stack(text, stack.push(e)),
{
    let sp = stack.push(e);
    let w = project(text, stack);
    let wp = project(text, sp);
    let ln = stack.len() as int;
    assert(wp =~= w.push(text[e.text_pos as int]));
    assert forall|k: int| 0 <= k < sp.len() implies ((#[trigger] sp[k]).text_pos as int)
        < text.len() && k <= sp[k].text_pos as int && 1 <= sp[k].period as int <= k + 1 by {
        if k < ln {
            assert(sp[k] == stack[k]);
        }
    }
    assert forall|k: int| 0 < k < sp.len() implies ((#[trigger] sp[k]).text_pos as int) > sp[k
        - 1].text_pos as int by {
        if k < ln {
            assert(sp[k] == stack[k]);
            assert(sp[k - 1] == stack[k - 1]);
        }
    }
    assert forall|k: int| 0 <= k < sp.len() implies is_pre_lyndon(
        wp.subrange(0, k + 1),
        (#[trigger] sp[k]).period as int,
    ) by {
        if k < ln {
            assert(sp[k] == stack[k]);
            assert(wp.subrange(0, k + 1) =~= w.subrange(0, k + 1));
            assert(is_pre_lyndon(w.subrange(0, k + 1), stack[k].period as int));
        } else {
            assert(wp.subrange(0, k + 1) =~= wp);
        }
    }
    assert forall|k: int| 0 < k < sp.len() implies (#[trigger] wp[k]) >= wp[k - sp[k
        - 1].period] by {
        if k < ln {
            assert(sp[k - 1] == stack[k - 1]);
            assert(w[k] >= w[k - stack[k - 1].period]);
        } else {
            assert(sp[k - 1] == stack[ln - 1]);
        }
    }
}

/// A successor query has exactly one admissible answer: any two results
/// that satisfy its contract on the same text, start and threshold are
/// equal. The search order is therefore well-defined.
pub proof fn lemma_successor_unique(
    text: Seq<u8>,
    start: int,
    value: u8,
    r1: Option<int>,
    r2: Option<int>,
)
    requires
        successor_matches(text, start, value, r1),
        successor_matches(text, start, value, r2),
    ensures
        r1 == r2,
{
    match (r1, r2) {
        (Some(i1), Some(i2)) => {
            assert(text[i1] <= text[i2]);
            assert(text[i2] <= text[i1]);
            if i1 < i2 {
                assert(!(value <= text[i1] <= text[i2]));
                assert(false);
            }
            if i2 < i1 {
                assert(!(value <= text[i2] <= text[i1]));
                assert(false);
            }
        },
        (Some(i1), None) => {
            assert(text[i1] < value);
            assert(false);
        },
        (None, Some(i2)) => {
            assert(text[i2] < value);
            assert(false);
        },
        (None, None) => {},
    }
}

/// Two distinct-leftmost enumerations of the same text agree on every entry
/// up to index `j`.
proof fn lemma_distinct_leftmost_eq_upto(text: Seq<u8>, r1: Seq<usize>, r2: Seq<usize>, j: int)
    requires
        distinct_leftmost_matches(text, r1),
        distinct_leftmost_matches(text, r2),
        j < r1.len(),
        j < r2.len(),
    ensures
        forall|i: int| 0 <= i <= j ==> r1[i] == r2[i],
    decreases j + 1,
{
    if j >= 0 {
        lemma_distinct_leftmost_eq_upto(text, r1, r2, j - 1);
        let v1 = byte_at(text, r1, j);
        let v2 = byte_at(text, r2, j);
        if v1 < v2 {
            assert((r1[j] as int) < text.len());
            assert(covers(text, r2, r1[j] as int));
            let jj = choose|jj: int|
                0 <= jj < r2.len() && #[trigger] byte_at(text, r2, jj) == text[r1[j] as int];
            assert(byte_at(text, r2, jj) == v1);
            if jj >= j {
                if jj > j {
                    assert(byte_at(text, r2, j) < byte_at(text, r2, jj));
                }
                assert(false);
            }
            assert(r2[jj] == r1[jj]);
            assert(byte_at(text, r1, jj) == v1);
            assert(byte_at(text, r1, jj) < byte_at(text, r1, j));
            assert(false);
        }
        if v2 < v1 {
            assert((r2[j] as int) < text.len());
            assert(covers(text, r1, r2[j] as int));
            let jj = choose|jj: int|
                0 <= jj < r1.len() && #[trigger] byte_at(text, r1, jj) == text[r2[j] as int];
            assert(byte_at(text, r1, jj) == v2);
            if jj >= j {
                if jj > j {
                    assert(byte_at(text, r1, j) < byte_at(text, r1, jj));
                }
                assert(false);
            }
            assert(r1[jj] == r2[jj]);
            assert(byte_at(text, r2, jj) == v2);
            assert(byte_at(text, r2, jj) < byte_at(text, r2, j));
            assert(false);
        }
        assert(v1 == v2);
        if (r1[j] as int) < r2[j] as int {
            assert(text[r1[j] as int] != byte_at(text, r2, j));
            assert(false);
        }
        if (r2[j] as int) < r1[j] as int {
            assert(text[r2[j] as int] != byte_at(text, r1, j));
            assert(false);
        }
    }
}

/// The distinct-leftmost enumeration has exactly one admissible answer: any
/// two position lists that satisfy its contract on the same text are equal.
pub proof fn lemma_distinct_leftmost_unique(text: Seq<u8>, r1: Seq<usize>, r2: Seq<usize>)
    requires
        distinct_leftmost_matches(text, r1),
        distinct_leftmost_matches(text, r2),
    ensures
        r1 == r2,
{
    if r1.len() < r2.len() {
        let j = r1.len() as int;
        lemma_distinct_leftmost_eq_upto(text, r1, r2, j - 1);
        assert((r2[j] as int) < text.len());
        assert(covers(text, r1, r2[j] as int));
        let jj = choose|jj: int|
            0 <= jj < r1.len() && #[trigger] byte_at(text, r1, jj) == text[r2[j] as int];
        assert(r1[jj] == r2[jj]);
        assert(byte_at(text, r2, jj) == byte_at(text, r2, j));
        assert(byte_at(text, r2, jj) < byte_at(text, r2, j));
        assert(false);
    }
    if r2.len() < r1.len() {
        let j = r2.len() as int;
        lemma_distinct_leftmost_eq_upto(text, r1, r2, j - 1);
        assert((r1[j] as int) < text.len());
        assert(covers(text, r2, r1[j] as int));
        let jj = choose|jj: int|
            0 <= jj < r2.len() && #[trigger] byte_at(text, r2, jj) == text[r1[j] as int];
        assert(r2[jj] == r1[jj]);
        assert(byte_at(text, r1, jj) == byte_at(text, r1, j));
        assert(byte_at(text, r1, jj) < byte_at(text, r1, j));
        assert(false);
    }
    lemma_distinct_leftmost_eq_upto(text, r1, r2, r1.len() - 1);
    assert(r1 =~= r2);
}

/// The one answer that a successor query admits.
pub open spec fn spec_successor(text: Seq<u8>, start: int, value: u8) -> Option<int> {
    choose|r: Option<int>| successor_matches(text, start, value, r)
}

/// Any result that satisfies the successor contract is the one answer.
pub proof fn lemma_spec_successor(text: Seq<u8>, start: int, value: u8, r: Option<int>)
    requires
        successor_matches(text, start, value, r),
    ensures
        spec_successor(text, start, value) == r,
{
    assert(successor_matches(text, start, value, spec_successor(text, start, value)));
    lemma_successor_unique(text, start, value, spec_successor(text, start, value), r);
}

/// The one answer that the distinct-leftmost enumeration admits.
pub open spec fn spec_distinct_leftmost(text: Seq<u8>) -> Seq<usize> {
    choose|r: Seq<usize>| distinct_leftmost_matches(text, r)
}

/// Any result that satisfies the enumeration contract is the one answer.
pub proof fn lemma_spec_distinct_leftmost(text: Seq<u8>, r: Seq<usize>)
    requires
        distinct_leftmost_matches(text, r),
    ensures
        spec_distinct_leftmost(text) == r,
{
    assert(distinct_leftmost_matches(text, spec_distinct_leftmost(text)));
    lemma_distinct_leftmost_unique(text, spec_distinct_leftmost(text), r);
}

/// The byte that the period of the stack's top entry predicts as the next
/// structural continuation: the threshold of the node's first child.
pub open spec fn node_threshold(text: Seq<u8>, stack: Seq<StackElement>) -> int {
    text[stack[stack.len() - stack[stack.len() - 1].period].text_pos as int] as int
}

/// The mathematical model of one search node: what the completion table and
/// the best candidate become once every extension of `stack` by a byte of
/// value at least `threshold` has been explored, children taken in ascending
/// byte order and dominated candidates pruned. The best candidate is
/// replaced only on strict improvement, so among completions of equal
/// length the first one found in this order wins. On the states the search
/// reaches it coincides with `explore`; on others it returns its arguments.
#[verifier::opaque]
pub open spec fn search_step(
    text: Seq<u8>,
    stack: Seq<StackElement>,
    larray: Seq<usize>,
    best: Seq<StackElement>,
    threshold: int,
) -> (Seq<usize>, Seq<StackElement>)
    decreases text.len() - stack.len(), 256 - threshold,
{
    if stack.len() < 1 || stack.len() >= text.len() || threshold < 0 || threshold > 255 {
        (larray, best)
    } else {
        let top = stack[stack.len() - 1];
        if !(1 <= top.period <= stack.len()) {
            (larray, best)
        } else {
            match spec_successor(text, top.text_pos + 1, threshold as u8) {
                None => (larray, best),
                Some(i) => {
                    if !(top.text_pos < i && i < text.len() && threshold <= text[i] as int) {
                        (larray, best)
                    } else {
                        let b = text[i] as int;
                        let new_len = stack.len() + 1;
                        if larray[new_len - 1] < i {
                            search_step(text, stack, larray, best, b + 1)
                        } else {
                            let immature = text[stack[stack.len() - top.period].text_pos as int];
                            let new_period: usize = if immature == text[i] {
                                top.period
                            } else {
                                new_len as usize
                            };
                            let pushed = stack.push(
                                StackElement { text_pos: i as usize, period: new_period },
                            );
                            let larray1 = if new_period == new_len {
                                larray.update(new_len - 1, i as usize)
                            } else {
                                larray
                            };
                            let best1 = if new_period == new_len && best.len() < new_len {
                                pushed
                            } else {
                                best
                            };
                            let (larray2, best2) = search_step(
                                text,
                                pushed,
                                larray1,
                                best1,
                                node_threshold(text, pushed),
                            );
                            search_step(text, stack, larray2, best2, b + 1)
                        }
                    }
                },
            }
        }
    }
}

/// The model returns its arguments once the threshold can no longer be met.
proof fn lemma_step_exhausted(
    text: Seq<u8>,
    stack: Seq<StackElement>,
    larray: Seq<usize>,
    best: Seq<StackElement>,
    t: int,
)
    requires
        t > 255,
    ensures
        search_step(text, stack, larray, best, t) == (larray, best),
{
    reveal_with_fuel(search_step, 1);
}

/// The model returns its arguments when the successor query fails.
proof fn lemma_step_none(
    text: Seq<u8>,
    stack: Seq<StackElement>,
    larray: Seq<usize>,
    best: Seq<StackElement>,
    value: u8,
)
    requires
        1 <= stack.len(),
        1 <= stack[stack.len() - 1].period <= stack.len(),
        spec_successor(text, stack[stack.len() - 1].text_pos + 1, value) == None::<int>,
    ensures
        search_step(text, stack, larray, best, value as int) == (larray, best),
{
    reveal_with_fuel(search_step, 1);
}

/// The model skips a dominated extension and resumes past its byte.
proof fn lemma_step_prune(
    text: Seq<u8>,
    stack: Seq<StackElement>,
    larray: Seq<usize>,
    best: Seq<StackElement>,
    value: u8,
    i: int,
)
    requires
        1 <= stack.len() < text.len(),
        1 <= stack[stack.len() - 1].period <= stack.len(),
        spec_successor(text, stack[stack.len() - 1].text_pos + 1, value) == Some(i),
        stack[stack.len() - 1].text_pos < i < text.len(),
        value as int <= text[i] as int,
        larray[stack.len() as int] < i,
    ensures
        search_step(text, stack, larray, best, value as int) == search_step(
            text,
            stack,
            larray,
            best,
            text[i] as int + 1,
        ),
{
    reveal_with_fuel(search_step, 1);
}

/// The model pushes an undominated extension, explores the new node, and
/// resumes past its byte with the table and best candidate the node left.
proof fn lemma_step_push(
    text: Seq<u8>,
    stack: Seq<StackElement>,
    larray: Seq<usize>,
    best: Seq<StackElement>,
    value: u8,
    i: int,
)
    requires
        1 <= stack.len() < text.len(),
        1 <= stack[stack.len() - 1].period <= stack.len(),
        spec_successor(text, stack[stack.len() - 1].text_pos + 1, value) == Some(i),
        stack[stack.len() - 1].text_pos < i < text.len(),
        value as int <= text[i] as int,
        !(larray[stack.len() as int] < i),
    ensures
        ({
            let top = stack[stack.len() - 1];
            let immature = text[stack[stack.len() - top.period].text_pos as int];
            let new_len = stack.len() + 1;
            let new_period: usize = if immature == text[i] {
                top.period
            } else {
                new_len as usize
            };
            let pushed = stack.push(StackElement { text_pos: i as usize, period: new_period });
            let larray1 = if new_period == new_len {
                larray.update(new_len - 1, i as usize)
            } else {
                larray
            };
            let best1 = if new_period == new_len && best.len() < new_len {
                pushed
            } else {
                best
            };
            let m = search_step(text, pushed, larray1, best1, node_threshold(text, pushed));
            search_step(text, stack, larray, best, value as int) == search_step(
                text,
                stack,
                m.0,
                m.1,
                text[i] as int + 1,
            )
        }),
{
    reveal_with_fuel(search_step, 1);
}

/// Re-running the projection cannot change the result: the projected bytes
/// are a function of the text and the recorded positions alone.
pub proof fn lemma_projection_deterministic(
    text: Seq<u8>,
    stack: Seq<StackElement>,
    r1: Seq<u8>,
    r2: Seq<u8>,
)
    requires
        r1 == project(text, stack),
        r2 == project(text, stack),
    ensures
        r1 == r2,
{
}

/// For each distinct byte value present in `text`, the position of its
/// leftmost occurrence, listed in ascending order of the byte value.
pub fn leftmost_distinct_characters(text: &[u8]) -> (r: Vec<usize>)
    ensures
        distinct_leftmost_matches(text@, r@),
{
    let mut r: Vec<usize> = Vec::new();
    let mut v: u16 = 0;
    while v < 256
        invariant
            v <= 256,
            forall|j: int| 0 <= j < r@.len() ==> ((#[trigger] r@[j]) as int) < text@.len(),
            forall|j: int| 0 <= j < r@.len() ==> (#[trigger] byte_at(text@, r@, j) as int) < v as int,
            forall|a: int, b: int|
                0 <= a < b < r@.len() ==> byte_at(text@, r@, a) < byte_at(text@, r@, b),
            forall|j: int, q: int|
                #![trigger text@[q], byte_at(text@, r@, j)]
                0 <= j < r@.len() && 0 <= q < r@[j] as int ==> text@[q] != byte_at(text@, r@, j),
            forall|q: int|
                0 <= q < text@.len() && (text@[q] as int) < v as int ==> #[trigger] covers(
                    text@,
                    r@,
                    q,
                ),
        decreases 256 - v as int,
    {
        let vb: u8 = v as u8;
        proof {
            assert((v as u8) as u16 == v) by (bit_vector)
                requires
                    v < 256,
            ;
        }
        let mut q: usize = 0;
        let mut hit: usize = text.len();
        while q < text.len()
            invariant_except_break
                hit == text@.len(),
                q <= text@.len(),
                forall|t: int| 0 <= t < q ==> #[trigger] text@[t] != vb,
            ensures
                hit as int <= text@.len(),
                hit as int == text@.len() ==> forall|t: int|
                    0 <= t < text@.len() ==> #[trigger] text@[t] != vb,
                (hit as int) < text@.len() ==> text@[hit as int] == vb && (forall|t: int|
                    0 <= t < hit as int ==> #[trigger] text@[t] != vb),
            decreases text@.len() - q,
        {
            if text[q] == vb {
                hit = q;
                break ;
            }
            q += 1;
        }
        if hit < text.len() {
            let ghost old_r = r@;
            r.push(hit);
            proof {
                assert forall|j: int| 0 <= j < r@.len() implies (#[trigger] byte_at(text@, r@, j)
                    as int) < v as int + 1 by {
                    if j < old_r.len() {
                        assert(r@[j] == old_r[j]);
                        assert((byte_at(text@, old_r, j) as int) < v as int);
                    } else {
                        assert(r@[j] == hit);
                    }
                }
                assert forall|a: int, b: int| 0 <= a < b < r@.len() implies byte_at(text@, r@, a)
                    < byte_at(text@, r@, b) by {
                    assert(r@[a] == old_r[a]);
                    if b < old_r.len() {
                        assert(r@[b] == old_r[b]);
                        assert(byte_at(text@, old_r, a) < byte_at(text@, old_r, b));
                    } else {
                        assert((byte_at(text@, old_r, a) as int) < v as int);
                        assert(r@[b] == hit);
                    }
                }
                assert forall|j: int, q2: int|
                    #![trigger text@[q2], byte_at(text@, r@, j)]
                    0 <= j < r@.len() && 0 <= q2 < r@[j] as int implies text@[q2] != byte_at(
                    text@,
                    r@,
                    j,
                ) by {
                    if j < old_r.len() {
                        assert(r@[j] == old_r[j]);
                        assert(text@[q2] != byte_at(text@, old_r, j));
                    } else {
                        assert(r@[j] == hit);
                        assert(text@[q2] != vb);
                    }
                }
                assert forall|q2: int|
                    0 <= q2 < text@.len() && (text@[q2] as int) < v as int
                        + 1 implies #[trigger] covers(text@, r@, q2) by {
                    if (text@[q2] as int) < v as int {
                        assert(covers(text@, old_r, q2));
                        let j = choose|j: int|
                            0 <= j < old_r.len() && #[trigger] byte_at(text@, old_r, j)
                                == text@[q2];
                        assert(r@[j] == old_r[j]);
                        assert(byte_at(text@, r@, j) == text@[q2]);
                    } else {
                        let j = r@.len() - 1;
                        assert(r@[j] == hit);
                        assert(byte_at(text@, r@, j) == text@[q2]);
                    }
                }
            }
        } else {
            proof {
                assert forall|q2: int|
                    0 <= q2 < text@.len() && (text@[q2] as int) < v as int
                        + 1 implies #[trigger] covers(text@, r@, q2) by {
                    if (text@[q2] as int) == v as int {
                        assert(text@[q2] == vb);
                        assert(text@[q2] != vb);
                    } else {
                        assert(covers(text@, r@, q2));
                    }
                }
            }
        }
        v += 1;
    }
    r
}

/// The absolute position of the leftmost occurrence of the smallest byte
/// value that is at least `value` within `text[start..]`, or nothing when no
/// byte there reaches `value`.
#[verifier::rlimit(60)]
pub fn successor_element(text: &[u8], start: usize, value: u8) -> (r: Option<usize>)
    ensures
        successor_matches(text@, start as int, value, to_int_option(r)),
{
    if start >= text.len() {
        return None;
    }
    let suffix = &text[start..text.len()];
    let ghost suf = suffix@;
    let list = leftmost_distinct_characters(suffix);
    proof {
        assert(suf == text@.subrange(start as int, text@.len() as int));
    }
    let mut k: usize = 0;
    while k < list.len()
        invariant
            text@.len() <= usize::MAX,
            start < text@.len(),
            suf == text@.subrange(start as int, text@.len() as int),
            k <= list@.len(),
            forall|j: int| 0 <= j < list@.len() ==> ((#[trigger] list@[j]) as int) < suf.len(),
            forall|a: int, b: int|
                0 <= a < b < list@.len() ==> byte_at(suf, list@, a) < byte_at(suf, list@, b),
            forall|j: int, q: int|
                #![trigger suf[q], byte_at(suf, list@, j)]
                0 <= j < list@.len() && 0 <= q < list@[j] as int ==> suf[q] != byte_at(suf, list@, j),
            forall|q: int| 0 <= q < suf.len() ==> #[trigger] covers(suf, list@, q),
            forall|t: int| 0 <= t < k ==> #[trigger] byte_at(suf, list@, t) < value,
        decreases list@.len() - k,
    {
        let rel = list[k];
        proof {
            assert((list@[k as int] as int) < suf.len());
            assert(suf.len() == text@.len() - start);
        }
        if text[start + rel] >= value {
            proof {
                let st = start as int;
                let n = text@.len() as int;
                let i = st + rel as int;
                assert(suf[rel as int] == text@[i]);
                assert forall|j: int|
                    st <= j < n && #[trigger] text@[j] >= value implies text@[i] <= text@[j] by {
                    let jr = j - st;
                    assert(suf[jr] == text@[j]);
                    assert(covers(suf, list@, jr));
                    let jj = choose|jj: int|
                        0 <= jj < list@.len() && #[trigger] byte_at(suf, list@, jj) == suf[jr];
                    if jj < k as int {
                        assert(byte_at(suf, list@, jj) < value);
                    } else if jj > k as int {
                        assert(byte_at(suf, list@, k as int) < byte_at(suf, list@, jj));
                    }
                }
                assert forall|j: int| st <= j < i implies !(value <= #[trigger] text@[j]
                    <= text@[i]) by {
                    let jr = j - st;
                    assert(suf[jr] == text@[j]);
                    if value <= text@[j] <= text@[i] {
                        assert(covers(suf, list@, jr));
                        let jj = choose|jj: int|
                            0 <= jj < list@.len() && #[trigger] byte_at(suf, list@, jj) == suf[jr];
                        if jj < k as int {
                            assert(byte_at(suf, list@, jj) < value);
                        } else if jj > k as int {
                            assert(byte_at(suf, list@, k as int) < byte_at(suf, list@, jj));
                        } else {
                            assert(suf[jr] == byte_at(suf, list@, k as int));
                            assert(jr < list@[k as int] as int);
                            assert(suf[jr] != byte_at(suf, list@, k as int));
                        }
                    }
                }
            }
            return Some(start + rel);
        }
        k += 1;
    }
    proof {
        let st = start as int;
        let n = text@.len() as int;
        assert forall|j: int| st <= j < n implies #[trigger] text@[j] < value by {
            let jr = j - st;
            assert(suf[jr] == text@[j]);
            assert(covers(suf, list@, jr));
            let jj = choose|jj: int|
                0 <= jj < list@.len() && #[trigger] byte_at(suf, list@, jj) == suf[jr];
            assert(byte_at(suf, list@, jj) < value);
        }
    }
    None
}

/// The bytes of `text` at the positions the stack records, in order.
pub fn subsequence(text: &[u8], stack: &[StackElement]) -> (r: Vec<u8>)
    requires
        forall|k: int| 0 <= k < stack@.len() ==> ((#[trigger] stack@[k]).text_pos as int)
            < text@.len(),
    ensures
        r@ == project(text@, stack@),
{
    let mut r: Vec<u8> = Vec::new();
    let mut k: usize = 0;
    while k < stack.len()
        invariant
            k <= stack@.len(),
            forall|t: int| 0 <= t < stack@.len() ==> ((#[trigger] stack@[t]).text_pos as int)
                < text@.len(),
            r@ =~= project(text@, stack@).subrange(0, k as int),
        decreases stack@.len() - k,
    {
        r.push(text[stack[k].text_pos]);
        k += 1;
    }
    assert(r@ =~= project(text@, stack@));
    r
}

/// An owned copy of the current stack, taken when a new best candidate is
/// recorded, so that later mutation of the stack cannot change it.
fn copy_stack(stack: &Vec<StackElement>) -> (r: Vec<StackElement>)
    ensures
        r@ == stack@,
{
    let mut r: Vec<StackElement> = Vec::new();
    let mut k: usize = 0;
    while k < stack.len()
        invariant
            k <= stack@.len(),
            r@ =~= stack@.subrange(0, k as int),
        decreases stack@.len() - k,
    {
        r.push(stack[k]);
        k += 1;
    }
    assert(r@ =~= stack@);
    r
}

/// The entry that the search pushes for an undominated extension keeps the
/// stack well-formed, and completes a Lyndon word exactly when its period
/// equals the new length.
#[verifier::rlimit(100)]
proof fn lemma_search_push(text: Seq<u8>, stack: Seq<StackElement>, i: usize, value: u8)
    requires
        text.len() <= usize::MAX,
        valid_stack(text, stack),
        1 <= stack.len(),
        1 <= stack[stack.len() - 1].period <= stack.len(),
        (stack[stack.len() - 1].text_pos as int) < i as int,
        (i as int) < text.len(),
        value as int <= text[i as int] as int,
        text[stack[stack.len() - stack[stack.len() - 1].period].text_pos as int] as int
            <= value as int,
    ensures
        ({
            let top = stack[stack.len() - 1];
            let immature = text[stack[stack.len() - top.period].text_pos as int];
            let new_len = stack.len() + 1;
            let new_period: usize = if immature == text[i as int] {
                top.period
            } else {
                new_len as usize
            };
            let pushed = stack.push(StackElement { text_pos: i, period: new_period });
            &&& valid_stack(text, pushed)
            &&& new_period == new_len ==> is_lyndon(project(text, pushed))
        }),
{
    reveal(is_pre_lyndon);
    let top = stack[stack.len() - 1];
    let immature = text[stack[stack.len() - top.period].text_pos as int];
    let b = text[i as int];
    let len = stack.len() as int;
    let new_len = stack.len() + 1;
    assert(stack[stack.len() - 1].text_pos as int >= stack.len() - 1);
    assert(stack.len() <= i as int);
    assert(new_len <= usize::MAX);
    let new_period: usize = if immature == b {
        top.period
    } else {
        new_len as usize
    };
    let e = StackElement { text_pos: i, period: new_period };
    let w = project(text, stack);
    let wp = project(text, stack.push(e));
    assert(wp =~= w.push(b));
    assert(w.subrange(0, len) =~= w);
    assert(is_pre_lyndon(w, top.period as int));
    assert(w[len - top.period as int] == immature);
    if b == immature {
        lemma_pre_lyndon_periodic_push(w, top.period as int, b);
        assert(is_pre_lyndon(wp, e.period as int));
    } else {
        assert(b > immature);
        lemma_pre_lyndon_extend(w, top.period as int, b);
        assert(is_lyndon(wp));
        assert(wp.subrange(0, new_len as int) =~= wp);
        assert(is_pre_lyndon(wp, new_len as int));
    }
    lemma_valid_stack_push(text, stack, e);
}

/// One node of the depth-first search. The current candidate is the whole
/// stack; every extension of it by one byte is tried in ascending byte
/// order, recursing into each extension that is not pruned, and the stack is
/// returned as it was. `larray[l - 1]` holds the rightmost text position at
/// which a Lyndon subsequence of length `l` has been completed so far;
/// `best` holds the longest completed candidate, replaced only on strict
/// improvement; both leave exactly as the model `search_step` says.
#[verifier::rlimit(100)]
fn explore(
    text: &[u8],
    stack: &mut Vec<StackElement>,
    larray: &mut Vec<usize>,
    best: &mut Vec<StackElement>,
)
    requires
        text@.len() <= usize::MAX,
        old(stack)@.len() >= 1,
        valid_stack(text@, old(stack)@),
        old(larray)@.len() == text@.len(),
        table_witnessed(text@, old(larray)@),
        old(best)@.len() >= 1,
        valid_stack(text@, old(best)@),
        is_lyndon(project(text@, old(best)@)),
    ensures
        final(stack)@ == old(stack)@,
        final(larray)@.len() == text@.len(),
        table_witnessed(text@, final(larray)@),
        final(best)@.len() >= old(best)@.len(),
        valid_stack(text@, final(best)@),
        is_lyndon(project(text@, final(best)@)),
        ({
            let m = search_step(
                text@,
                old(stack)@,
                old(larray)@,
                old(best)@,
                node_threshold(text@, old(stack)@),
            );
            final(larray)@ == m.0 && final(best)@ == m.1
        }),
    decreases text@.len() - old(stack)@.len(), 2int,
{
    let len = stack.len();
    let top = stack[len - 1];
    let immature = text[stack[len - top.period].text_pos];
    let mut threshold: u8 = immature;
    proof {
        assert(immature as int == node_threshold(text@, stack@));
    }
    loop
        invariant
            text@.len() <= usize::MAX,
            stack@ == old(stack)@,
            len == stack@.len(),
            1 <= len <= text@.len(),
            valid_stack(text@, stack@),
            top == stack@[len - 1],
            immature == text@[stack@[len - top.period as int].text_pos as int],
            immature <= threshold,
            larray@.len() == text@.len(),
            table_witnessed(text@, larray@),
            best@.len() >= old(best)@.len(),
            old(best)@.len() >= 1,
            valid_stack(text@, best@),
            is_lyndon(project(text@, best@)),
            search_step(
                text@,
                old(stack)@,
                old(larray)@,
                old(best)@,
                node_threshold(text@, old(stack)@),
            ) == search_step(text@, stack@, larray@, best@, threshold as int),
        decreases 255 - threshold as int,
    {
        proof {
            assert((stack@[len - 1].text_pos as int) < text@.len());
            assert(1 <= stack@[len - 1].period as int <= len as int);
        }
        match successor_element(text, top.text_pos + 1, threshold) {
            None => {
                proof {
                    lemma_spec_successor(
                        text@,
                        top.text_pos as int + 1,
                        threshold,
                        to_int_option(None::<usize>),
                    );
                    lemma_step_none(text@, stack@, larray@, best@, threshold);
                }
                return ;
            },
            Some(i) => {
                let b = text[i];
                proof {
                    lemma_spec_successor(
                        text@,
                        top.text_pos as int + 1,
                        threshold,
                        to_int_option(Some(i)),
                    );
                }
                explore_extension(text, stack, larray, best, i, threshold);
                if b == 255 {
                    proof {
                        lemma_step_exhausted(text@, stack@, larray@, best@, 256int);
                    }
                    return ;
                }
                threshold = b + 1;
            },
        }
    }
}

/// One extension attempt of a node: the successor query found position `i`
/// for threshold `value` above the stack's top entry. The candidate is
/// discarded when the completion table dominates it; otherwise it is pushed
/// and its node explored.
#[verifier::rlimit(100)]
fn explore_extension(
    text: &[u8],
    stack: &mut Vec<StackElement>,
    larray: &mut Vec<usize>,
    best: &mut Vec<StackElement>,
    i: usize,
    value: u8,
)
    requires
        text@.len() <= usize::MAX,
        old(stack)@.len() >= 1,
        valid_stack(text@, old(stack)@),
        old(larray)@.len() == text@.len(),
        table_witnessed(text@, old(larray)@),
        old(best)@.len() >= 1,
        valid_stack(text@, old(best)@),
        is_lyndon(project(text@, old(best)@)),
        spec_successor(
            text@,
            old(stack)@[old(stack)@.len() - 1].text_pos as int + 1,
            value,
        ) == Some(i as int),
        (old(stack)@[old(stack)@.len() - 1].text_pos as int) < i as int,
        (i as int) < text@.len(),
        value as int <= text@[i as int] as int,
        text@[old(stack)@[old(stack)@.len() - old(stack)@[old(stack)@.len()
            - 1].period].text_pos as int] as int <= value as int,
    ensures
        final(stack)@ == old(stack)@,
        final(larray)@.len() == text@.len(),
        table_witnessed(text@, final(larray)@),
        final(best)@.len() >= old(best)@.len(),
        valid_stack(text@, final(best)@),
        is_lyndon(project(text@, final(best)@)),
        search_step(text@, old(stack)@, old(larray)@, old(best)@, value as int) == search_step(
            text@,
            old(stack)@,
            final(larray)@,
            final(best)@,
            text@[i as int] as int + 1,
        ),
    decreases text@.len() - old(stack)@.len(), 1int,
{
    let len = stack.len();
    let b = text[i];
    let new_len = len + 1;
    proof {
        assert(stack@[len - 1].text_pos as int >= len - 1);
        assert(i as int >= len);
        assert(new_len <= text@.len());
        assert(1 <= stack@[len - 1].period as int <= len as int);
    }
    if larray[new_len - 1] < i {
        // A Lyndon subsequence of this length was already completed at or
        // beyond this position: the candidate is dominated, so it is not
        // explored.
        proof {
            lemma_step_prune(text@, stack@, larray@, best@, value, i as int);
        }
    } else {
        explore_push(text, stack, larray, best, i, value);
        proof {
            lemma_step_push(text@, stack@, old(larray)@, old(best)@, value, i as int);
        }
    }
}

/// The push half of an extension attempt: the new entry is appended, the
/// completion table and the best candidate are brought up to date when the
/// new prefix is itself a Lyndon word, the new node is explored, and the
/// stack is restored.
#[verifier::rlimit(100)]
fn explore_push(
    text: &[u8],
    stack: &mut Vec<StackElement>,
    larray: &mut Vec<usize>,
    best: &mut Vec<StackElement>,
    i: usize,
    value: u8,
)
    requires
        text@.len() <= usize::MAX,
        old(stack)@.len() >= 1,
        valid_stack(text@, old(stack)@),
        old(larray)@.len() == text@.len(),
        table_witnessed(text@, old(larray)@),
        old(best)@.len() >= 1,
        valid_stack(text@, old(best)@),
        is_lyndon(project(text@, old(best)@)),
        (old(stack)@[old(stack)@.len() - 1].text_pos as int) < i as int,
        (i as int) < text@.len(),
        value as int <= text@[i as int] as int,
        text@[old(stack)@[old(stack)@.len() - old(stack)@[old(stack)@.len()
            - 1].period].text_pos as int] as int <= value as int,
    ensures
        final(stack)@ == old(stack)@,
        final(larray)@.len() == text@.len(),
        table_witnessed(text@, final(larray)@),
        final(best)@.len() >= old(best)@.len(),
        valid_stack(text@, final(best)@),
        is_lyndon(project(text@, final(best)@)),
        ({
            let top = old(stack)@[old(stack)@.len() - 1];
            let immature = text@[old(stack)@[old(stack)@.len() - top.period].text_pos as int];
            let new_len = old(stack)@.len() + 1;
            let new_period: usize = if immature == text@[i as int] {
                top.period
            } else {
                new_len as usize
            };
            let pushed = old(stack)@.push(StackElement { text_pos: i, period: new_period });
            let larray1 = if new_period == new_len {
                old(larray)@.update(new_len - 1, i)
            } else {
                old(larray)@
            };
            let best1 = if new_period == new_len && old(best)@.len() < new_len {
                pushed
            } else {
                old(best)@
            };
            let m = search_step(text@, pushed, larray1, best1, node_threshold(text@, pushed));
            final(larray)@ == m.0 && final(best)@ == m.1
        }),
    decreases text@.len() - old(stack)@.len(), 0int,
{
    let len = stack.len();
    let top = stack[len - 1];
    let immature = text[stack[len - top.period].text_pos];
    let b = text[i];
    let new_len = len + 1;
    proof {
        assert(stack@[len - 1].text_pos as int >= len - 1);
        assert(i as int >= len);
        assert(new_len <= text@.len());
        assert(1 <= stack@[len - 1].period as int <= len as int);
    }
    let new_period = if b == immature {
        top.period
    } else {
        new_len
    };
    let e = StackElement { text_pos: i, period: new_period };
    proof {
        lemma_search_push(text@, stack@, i, value);
    }
    let ghost pushed = stack@.push(e);
    let ghost pre_larray = larray@;
    let ghost pre_best = best@;
    stack.push(e);
    if new_period == new_len {
        larray[new_len - 1] = i;
        if best.len() < new_len {
            let snapshot = copy_stack(stack);
            *best = snapshot;
        }
    }
    proof {
        if new_period == new_len {
            assert(larray@ == pre_larray.update(new_len - 1, i));
            if pre_best.len() < new_len as int {
                assert(best@ == pushed);
            } else {
                assert(best@ == pre_best);
            }
            lemma_table_update_witnessed(
                text@,
                pre_larray,
                larray@,
                pushed,
                new_len as int,
                i,
            );
        } else {
            assert(larray@ == pre_larray);
            assert(best@ == pre_best);
        }
    }
    explore(text, stack, larray, best);
    let _ = stack.pop();
    proof {
        assert(stack@ =~= pushed.drop_last());
        assert(stack@ =~= old(stack)@);
    }
}

/// The mathematical model of the whole search: each seed of the enumeration
/// opens a fresh single-entry stack and is explored in turn, with the
/// completion table and the best candidate carried across seeds; the first
/// seed is recorded as the provisional best.
pub open spec fn search_all(
    text: Seq<u8>,
    seeds: Seq<usize>,
    s: int,
    larray: Seq<usize>,
    best: Seq<StackElement>,
) -> Seq<StackElement>
    decreases seeds.len() - s,
{
    if s < 0 || s >= seeds.len() {
        best
    } else {
        let stack1 = seq![StackElement { text_pos: seeds[s], period: 1 }];
        let best0 = if best.len() == 0 {
            stack1
        } else {
            best
        };
        let m = search_step(text, stack1, larray, best0, node_threshold(text, stack1));
        search_all(text, seeds, s + 1, m.0, m.1)
    }
}

/// The search result as a function of the text alone: what is left as best
/// once every seed of the distinct-leftmost enumeration has been explored in
/// ascending byte-value order, starting from an empty completion table.
pub open spec fn spec_longest_lyndon_subsequence(text: Seq<u8>) -> Seq<StackElement> {
    search_all(
        text,
        spec_distinct_leftmost(text),
        0,
        Seq::new(text.len(), |k: int| usize::MAX),
        Seq::empty(),
    )
}

/// Tie-break determinism: the search result is a function of the text's
/// bytes alone — the candidate that the ascending-byte-value, depth-first,
/// leftmost-first order completes — so two runs on equal texts return
/// identical position and period sequences.
pub proof fn lemma_search_deterministic(
    text: Seq<u8>,
    r1: Seq<StackElement>,
    r2: Seq<StackElement>,
)
    requires
        r1 == spec_longest_lyndon_subsequence(text),
        r2 == spec_longest_lyndon_subsequence(text),
    ensures
        r1 == r2,
{
}

/// A longest Lyndon subsequence of `text`, as the stack of positions and
/// periods that the search completed it with. The projected bytes form a
/// Lyndon word taken from strictly increasing positions of `text`; the
/// result is empty exactly when `text` is, and is the one candidate that the
/// search order of `spec_longest_lyndon_subsequence` determines.
pub fn longest_lyndon_subsequence(text: &[u8]) -> (r: Vec<StackElement>)
    ensures
        r@ == spec_longest_lyndon_subsequence(text@),
        valid_stack(text@, r@),
        text@.len() == 0 ==> r@.len() == 0,
        text@.len() > 0 ==> 1 <= r@.len(),
        r@.len() <= text@.len(),
        forall|k: int| 0 <= k < r@.len() ==> ((#[trigger] r@[k]).text_pos as int) < text@.len(),
        forall|k: int|
            0 < k < r@.len() ==> ((#[trigger] r@[k]).text_pos as int) > r@[k - 1].text_pos as int,
        forall|k: int| 0 <= k < r@.len() ==> 1 <= (#[trigger] r@[k]).period as int <= k + 1,
        r@.len() > 0 ==> is_lyndon(project(text@, r@)),
{
    let n = text.len();
    let mut larray: Vec<usize> = Vec::new();
    while larray.len() < n
        invariant
            larray@.len() <= n,
            forall|k: int| 0 <= k < larray@.len() ==> larray@[k] == usize::MAX,
        decreases n - larray@.len(),
    {
        larray.push(usize::MAX);
    }
    let mut best: Vec<StackElement> = Vec::new();
    let seeds = leftmost_distinct_characters(text);
    proof {
        lemma_spec_distinct_leftmost(text@, seeds@);
        assert(larray@ =~= Seq::new(text@.len(), |k: int| usize::MAX));
        assert(table_witnessed(text@, larray@)) by {
            reveal(table_witnessed);
        }
        assert(search_all(text@, seeds@, 0, larray@, best@)
            == spec_longest_lyndon_subsequence(text@));
    }
    let mut s: usize = 0;
    while s < seeds.len()
        invariant
            text@.len() <= usize::MAX,
            s <= seeds@.len(),
            larray@.len() == text@.len(),
            table_witnessed(text@, larray@),
            forall|j: int| 0 <= j < seeds@.len() ==> ((#[trigger] seeds@[j]) as int) < text@.len(),
            best@.len() == 0 ==> s == 0,
            best@.len() > 0 ==> valid_stack(text@, best@) && is_lyndon(project(text@, best@)),
            search_all(text@, seeds@, s as int, larray@, best@)
                == spec_longest_lyndon_subsequence(text@),
        decreases seeds@.len() - s,
    {
        let pos = seeds[s];
        let ghost pre_larray = larray@;
        let ghost pre_best = best@;
        let mut stack: Vec<StackElement> = Vec::new();
        stack.push(StackElement { text_pos: pos, period: 1 });
        proof {
            reveal(is_pre_lyndon);
            let w = project(text@, stack@);
            assert(w.subrange(0, 1) =~= w);
            assert(is_lyndon(w));
            assert(valid_stack(text@, stack@));
            assert(stack@ =~= seq![StackElement { text_pos: pos, period: 1 }]);
        }
        if best.len() == 0 {
            best = copy_stack(&stack);
        }
        let ghost best0 = best@;
        explore(text, &mut stack, &mut larray, &mut best);
        proof {
            let stack1 = seq![StackElement { text_pos: seeds@[s as int], period: 1 }];
            assert(stack1 == seq![StackElement { text_pos: pos, period: 1 }]);
            let m = search_step(text@, stack1, pre_larray, best0, node_threshold(text@, stack1));
            assert(larray@ == m.0 && best@ == m.1);
            assert(search_all(text@, seeds@, s as int, pre_larray, pre_best)
                == search_all(text@, seeds@, s as int + 1, larray@, best@));
        }
        s += 1;
    }
    proof {
        if text@.len() > 0 {
            assert(covers(text@, seeds@, 0));
            let j = choose|j: int|
                0 <= j < seeds@.len() && #[trigger] byte_at(text@, seeds@, j) == text@[0];
            assert(seeds@.len() > 0);
        }
        if best@.len() > 0 {
            assert(best@[best@.len() - 1].text_pos as int >= best@.len() - 1);
        }
        assert(search_all(text@, seeds@, s as int, larray@, best@) == best@);
    }
    best
}

} // verus!
