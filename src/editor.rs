//! Byte-buffer editing: literal replace-all and anchored truncation.
use vstd::prelude::*;
use vstd::utf8::{
    is_char_boundary_iff_not_is_continuation_byte, is_continuation_byte, valid_utf8,
    valid_utf8_concat, valid_utf8_split, length_of_first_scalar, pop_first_scalar,
    valid_first_scalar,
};

verus! {

/// `p` occurs in `s` starting at byte offset `i`.
pub open spec fn occurs_at(s: Seq<u8>, p: Seq<u8>, i: int) -> bool {
    0 <= i && i + p.len() <= s.len() && s.subrange(i, i + p.len()) == p
}

/// The first offset at or after `from` at which `p` occurs in `s`.
pub open spec fn first_from(s: Seq<u8>, p: Seq<u8>, from: int) -> Option<int>
    decreases s.len() + 1 - from,
{
    if from < 0 || from + p.len() > s.len() {
        None
    } else if occurs_at(s, p, from) {
        Some(from)
    } else {
        first_from(s, p, from + 1)
    }
}

/// `p` occurs somewhere in `s`.
pub open spec fn contains(s: Seq<u8>, p: Seq<u8>) -> bool {
    exists|i: int| occurs_at(s, p, i)
}

/// The suffix `s[i..]` with every occurrence of `p` replaced by `r`, scanning
/// left to right and resuming after each replaced occurrence. An empty
/// pattern matches nowhere.
pub open spec fn replaced_from(s: Seq<u8>, p: Seq<u8>, r: Seq<u8>, i: int) -> Seq<u8>
    decreases s.len() - i,
{
    if i < 0 || i >= s.len() {
        Seq::empty()
    } else if p.len() == 0 {
        s.subrange(i, s.len() as int)
    } else if occurs_at(s, p, i) {
        r + replaced_from(s, p, r, i + p.len())
    } else {
        seq![s[i]] + replaced_from(s, p, r, i + 1)
    }
}

/// Number of occurrences that the scan of `replaced_from` replaces in `s[i..]`.
pub open spec fn count_from(s: Seq<u8>, p: Seq<u8>, i: int) -> nat
    decreases s.len() - i,
{
    if i < 0 || i >= s.len() || p.len() == 0 {
        0
    } else if occurs_at(s, p, i) {
        1 + count_from(s, p, i + p.len())
    } else {
        count_from(s, p, i + 1)
    }
}

/// Left-to-right, non-overlapping replacement of every occurrence of `p` by `r`.
pub open spec fn replace_all(s: Seq<u8>, p: Seq<u8>, r: Seq<u8>) -> Seq<u8> {
    replaced_from(s, p, r, 0)
}

/// Number of occurrences that `replace_all` replaces.
pub open spec fn count_matches(s: Seq<u8>, p: Seq<u8>) -> nat {
    count_from(s, p, 0)
}

/// Why an anchored truncation could not be applied.
#[derive(Clone, Copy, Debug, PartialEq, Eq, Structural)]
pub enum EditError {
    /// The start anchor, or the end anchor after it, does not occur.
    PatternNotFound,
    /// The span found does not begin with the start anchor and end with the
    /// end anchor (the end anchor was found inside the start anchor).
    TruncationMismatch,
}

/// Removes `s[i..j + |end|)`, where `i` is the first occurrence of `start`
/// and `j` the first occurrence of `end` at or after `i`, and puts `rep` in
/// its place.
pub open spec fn truncation(s: Seq<u8>, start: Seq<u8>, end: Seq<u8>, rep: Seq<u8>) -> Result<
    Seq<u8>,
    EditError,
> {
    match first_from(s, start, 0) {
        None => Err(EditError::PatternNotFound),
        Some(i) => match first_from(s, end, i) {
            None => Err(EditError::PatternNotFound),
            Some(j) => if j + end.len() < i + start.len() {
                Err(EditError::TruncationMismatch)
            } else {
                Ok(s.subrange(0, i) + rep + s.subrange(j + end.len(), s.len() as int))
            },
        },
    }
}

/// What `first_from` finds is an occurrence, and the first one from `from`.
pub proof fn lemma_first_from(s: Seq<u8>, p: Seq<u8>, from: int)
    requires
        0 <= from,
    ensures
        match first_from(s, p, from) {
            Some(k) => from <= k && occurs_at(s, p, k) && forall|m: int|
                from <= m < k ==> !occurs_at(s, p, m),
            None => forall|m: int| from <= m ==> !occurs_at(s, p, m),
        },
    decreases s.len() + 1 - from,
{
    if from < 0 || from + p.len() > s.len() {
    } else if occurs_at(s, p, from) {
    } else {
        lemma_first_from(s, p, from + 1);
    }
}

pub open spec fn opt_int(o: Option<usize>) -> Option<int> {
    match o {
        Some(k) => Some(k as int),
        None => None,
    }
}

/// Whether `p` occurs in `s` at offset `i`.
pub fn matches_at(s: &[u8], p: &[u8], i: usize) -> (r: bool)
    requires
        i <= s.len(),
    ensures
        r == occurs_at(s@, p@, i as int),
{
    if p.len() > s.len() - i {
        return false;
    }
    let mut k: usize = 0;
    while k < p.len()
        invariant
            i + p.len() <= s.len(),
            k <= p.len(),
            forall|m: int| 0 <= m < k ==> s@[i + m] == p@[m],
        decreases p.len() - k,
    {
        if s[i + k] != p[k] {
            assert(s@.subrange(i as int, i + p.len())[k as int] != p@[k as int]);
            return false;
        }
        k += 1;
    }
    assert(s@.subrange(i as int, i + p.len()) =~= p@);
    true
}

/// The first offset at or after `from` at which `p` occurs in `s`.
pub fn find_from(s: &[u8], p: &[u8], from: usize) -> (r: Option<usize>)
    requires
        from <= s.len(),
    ensures
        opt_int(r) == first_from(s@, p@, from as int),
{
    let mut i: usize = from;
    while p.len() <= s.len() - i
        invariant
            from <= i <= s.len(),
            first_from(s@, p@, from as int) == first_from(s@, p@, i as int),
        decreases s.len() - i,
    {
        if matches_at(s, p, i) {
            return Some(i);
        }
        if i == s.len() {
            // `p` is empty here, and so occurs at `i`
            assert(s@.subrange(i as int, i as int) =~= p@);
            assert(false);
        }
        i += 1;
    }
    None
}

/// Appends `s[from..to]` to `out`.
fn push_range(out: &mut Vec<u8>, s: &[u8], from: usize, to: usize)
    requires
        from <= to <= s.len(),
    ensures
        final(out)@ == old(out)@ + s@.subrange(from as int, to as int),
{
    let mut k: usize = from;
    while k < to
        invariant
            from <= k <= to <= s.len(),
            out@ == old(out)@ + s@.subrange(from as int, k as int),
        decreases to - k,
    {
        out.push(s[k]);
        k += 1;
        assert(out@ =~= old(out)@ + s@.subrange(from as int, k as int));
    }
}

/// Replaces every occurrence of `p` in `s` by `r`, left to right; the scan
/// resumes after each inserted replacement, so a replacement that contains
/// `p` is never rescanned. An empty `p` matches nowhere.
pub fn replace_all_bytes(s: &[u8], p: &[u8], r: &[u8]) -> (out: Vec<u8>)
    ensures
        out@ == replace_all(s@, p@, r@),
{
    let mut out: Vec<u8> = Vec::new();
    if p.len() == 0 {
        push_range(&mut out, s, 0, s.len());
        assert(out@ =~= replace_all(s@, p@, r@));
        return out;
    }
    let mut i: usize = 0;
    while i < s.len()
        invariant
            i <= s.len(),
            p@.len() > 0,
            out@ + replaced_from(s@, p@, r@, i as int) == replace_all(s@, p@, r@),
        decreases s.len() - i,
    {
        let ghost before = out@;
        if matches_at(s, p, i) {
            push_range(&mut out, r, 0, r.len());
            assert(r@.subrange(0, r@.len() as int) =~= r@);
            assert(before + (r@ + replaced_from(s@, p@, r@, i + p@.len())) =~= out@
                + replaced_from(s@, p@, r@, i + p@.len()));
            i += p.len();
        } else {
            out.push(s[i]);
            assert(before + (seq![s@[i as int]] + replaced_from(s@, p@, r@, i + 1)) =~= out@
                + replaced_from(s@, p@, r@, i + 1));
            i += 1;
        }
    }
    assert(out@ + Seq::<u8>::empty() =~= out@);
    out
}

/// Deletes the span from the first occurrence of `start` through the end of
/// the first occurrence of `end` at or after it, and inserts `replacement`
/// where the span began. Only the first such span is removed.
pub fn truncate(data: &[u8], start: &[u8], end: &[u8], replacement: &[u8]) -> (r: Result<
    Vec<u8>,
    EditError,
>)
    ensures
        match r {
            Ok(v) => truncation(data@, start@, end@, replacement@) == Ok::<Seq<u8>, EditError>(v@),
            Err(e) => truncation(data@, start@, end@, replacement@) == Err::<Seq<u8>, EditError>(e),
        },
{
    let i = match find_from(data, start, 0) {
        Some(i) => i,
        None => return Err(EditError::PatternNotFound),
    };
    proof {
        lemma_first_from(data@, start@, 0);
    }
    let j = match find_from(data, end, i) {
        Some(j) => j,
        None => return Err(EditError::PatternNotFound),
    };
    proof {
        lemma_first_from(data@, end@, i as int);
        assert(first_from(data@, end@, i as int) == Some(j as int));
        assert(occurs_at(data@, end@, j as int));
        assert(occurs_at(data@, start@, i as int));
        assert(data@.len() == data.len());
    }
    if j + end.len() < i + start.len() {
        return Err(EditError::TruncationMismatch);
    }
    let mut out: Vec<u8> = Vec::new();
    push_range(&mut out, data, 0, i);
    push_range(&mut out, replacement, 0, replacement.len());
    push_range(&mut out, data, j + end.len(), data.len());
    assert(replacement@.subrange(0, replacement@.len() as int) =~= replacement@);
    Ok(out)
}

/// An occurrence at `k` with none between `from` and `k` is what `first_from` finds.
pub proof fn lemma_first_from_is(s: Seq<u8>, p: Seq<u8>, from: int, k: int)
    requires
        0 <= from <= k,
        occurs_at(s, p, k),
        forall|m: int| from <= m < k ==> !occurs_at(s, p, m),
    ensures
        first_from(s, p, from) == Some(k),
    decreases k - from,
{
    if from < k {
        lemma_first_from_is(s, p, from + 1, k);
    }
}

/// Where `p` does not occur from `i` on, the scan copies `s[i..]` unchanged.
pub proof fn lemma_replaced_no_match(s: Seq<u8>, p: Seq<u8>, r: Seq<u8>, i: int)
    requires
        0 <= i <= s.len(),
        forall|m: int| i <= m ==> !occurs_at(s, p, m),
    ensures
        replaced_from(s, p, r, i) == s.subrange(i, s.len() as int),
        count_from(s, p, i) == 0,
    decreases s.len() - i,
{
    if i < s.len() && p.len() > 0 {
        lemma_replaced_no_match(s, p, r, i + 1);
        assert(replaced_from(s, p, r, i) =~= s.subrange(i, s.len() as int));
    } else if i == s.len() {
        assert(s.subrange(i, s.len() as int) =~= Seq::<u8>::empty());
    }
}

/// The scan from `i` copies the bytes before the first occurrence of `p`,
/// puts `r` in place of that occurrence, and continues after it.
pub proof fn lemma_replaced_split(s: Seq<u8>, p: Seq<u8>, r: Seq<u8>, i: int)
    requires
        0 <= i <= s.len(),
        p.len() > 0,
    ensures
        match first_from(s, p, i) {
            Some(k) => replaced_from(s, p, r, i) == s.subrange(i, k) + r + replaced_from(
                s,
                p,
                r,
                k + p.len(),
            ) && count_from(s, p, i) == 1 + count_from(s, p, k + p.len()),
            None => replaced_from(s, p, r, i) == s.subrange(i, s.len() as int) && count_from(s, p, i)
                == 0,
        },
    decreases s.len() - i,
{
    lemma_first_from(s, p, i);
    if first_from(s, p, i) is None {
        lemma_replaced_no_match(s, p, r, i);
    } else if occurs_at(s, p, i) {
        assert(s.subrange(i, i) + r =~= r);
    } else {
        lemma_replaced_split(s, p, r, i + 1);
        let k = first_from(s, p, i)->0;
        assert(seq![s[i]] + (s.subrange(i + 1, k) + r + replaced_from(s, p, r, k + p.len()))
            =~= s.subrange(i, k) + r + replaced_from(s, p, r, k + p.len()));
    }
}

/// Each replaced occurrence changes the length by `|r| - |p|`.
pub proof fn lemma_replaced_len(s: Seq<u8>, p: Seq<u8>, r: Seq<u8>, i: int)
    requires
        0 <= i <= s.len(),
    ensures
        replaced_from(s, p, r, i).len() == (s.len() - i) + count_from(s, p, i) * (r.len()
            - p.len()),
    decreases s.len() - i,
{
    let d = r.len() - p.len();
    if i < s.len() && p.len() > 0 {
        if occurs_at(s, p, i) {
            lemma_replaced_len(s, p, r, i + p.len());
            let c = count_from(s, p, i + p.len()) as int;
            assert((c + 1) * d == c * d + d) by (nonlinear_arith);
            assert(replaced_from(s, p, r, i).len() == r.len() + replaced_from(
                s,
                p,
                r,
                i + p.len(),
            ).len());
        } else {
            lemma_replaced_len(s, p, r, i + 1);
        }
    } else {
        assert(count_from(s, p, i) == 0);
        assert(0 * d == 0) by (nonlinear_arith);
        if i < s.len() {
            assert(replaced_from(s, p, r, i) == s.subrange(i, s.len() as int));
        }
    }
}

/// Byte substitution keeps every byte outside the replaced spans: the result
/// is the input up to the first occurrence of `p`, then `r`, then the
/// substitution of what follows that occurrence, or the input itself where
/// `p` does not occur; and its length is `|s| + k * (|r| - |p|)` for the `k`
/// occurrences replaced.
pub proof fn lemma_substitution_preserves_untouched(s: Seq<u8>, p: Seq<u8>, r: Seq<u8>)
    requires
        p.len() > 0,
    ensures
        replace_all(s, p, r).len() == s.len() + count_matches(s, p) * (r.len() - p.len()),
        match first_from(s, p, 0) {
            Some(k) => replace_all(s, p, r) == s.subrange(0, k) + r + replaced_from(
                s,
                p,
                r,
                k + p.len(),
            ),
            None => replace_all(s, p, r) == s,
        },
{
    lemma_replaced_len(s, p, r, 0);
    lemma_replaced_split(s, p, r, 0);
    assert(s.subrange(0, s.len() as int) =~= s);
}

/// Literal replacement applied to its own output changes nothing, where the
/// replacement does not contain the pattern and the output holds no
/// occurrence of it: the second pass finds no match.
pub proof fn lemma_literal_replace_idempotent(b: Seq<u8>, p: Seq<u8>, r: Seq<u8>)
    requires
        p.len() > 0,
        !contains(r, p),
        !contains(replace_all(b, p, r), p),
    ensures
        count_matches(replace_all(b, p, r), p) == 0,
        replace_all(replace_all(b, p, r), p, r) == replace_all(b, p, r),
{
    let once = replace_all(b, p, r);
    lemma_replaced_no_match(once, p, r, 0);
    assert(once.subrange(0, once.len() as int) =~= once);
}

/// With a one-byte pattern that the replacement does not contain, no
/// occurrence of the pattern is left after literal replacement.
pub proof fn lemma_single_byte_pattern_removed(b: Seq<u8>, p: Seq<u8>, r: Seq<u8>)
    requires
        p.len() == 1,
        !contains(r, p),
    ensures
        !contains(replace_all(b, p, r), p),
{
    assert forall|k: int| 0 <= k < r.len() implies r[k] != p[0] by {
        if r[k] == p[0] {
            assert(r.subrange(k, k + 1) =~= p);
            assert(occurs_at(r, p, k));
        }
    }
    lemma_replaced_avoids_byte(b, p, r, 0);
    let once = replace_all(b, p, r);
    if contains(once, p) {
        let m = choose|m: int| occurs_at(once, p, m);
        assert(once.subrange(m, m + 1)[0] == once[m]);
    }
}

proof fn lemma_replaced_avoids_byte(s: Seq<u8>, p: Seq<u8>, r: Seq<u8>, i: int)
    requires
        p.len() == 1,
        0 <= i,
        forall|k: int| 0 <= k < r.len() ==> r[k] != p[0],
    ensures
        forall|k: int|
            0 <= k < replaced_from(s, p, r, i).len() ==> #[trigger] replaced_from(s, p, r, i)[k]
                != p[0],
    decreases s.len() - i,
{
    if i < s.len() {
        lemma_replaced_avoids_byte(s, p, r, i + 1);
        let rest = replaced_from(s, p, r, i + 1);
        if occurs_at(s, p, i) {
            assert(replaced_from(s, p, r, i) == r + rest);
            assert forall|k: int| 0 <= k < (r + rest).len() implies #[trigger] (r + rest)[k]
                != p[0] by {
                if k >= r.len() {
                    assert(rest[k - r.len()] != p[0]);
                }
            }
        } else {
            if s[i] == p[0] {
                assert(s.subrange(i, i + 1) =~= p);
            }
            let one = seq![s[i]];
            assert(replaced_from(s, p, r, i) == one + rest);
            assert forall|k: int| 0 <= k < (one + rest).len() implies #[trigger] (one + rest)[k]
                != p[0] by {
                if k >= 1 {
                    assert(rest[k - 1] != p[0]);
                }
            }
        }
    }
}

/// Truncating `a + start + mid + end + c` with anchors `start` and `end`
/// yields `a + x + c`, where `start` first occurs right after `a` and `end`
/// does not occur before the one that follows `mid`.
pub proof fn lemma_truncation_removes_span(
    a: Seq<u8>,
    start: Seq<u8>,
    mid: Seq<u8>,
    end: Seq<u8>,
    c: Seq<u8>,
    x: Seq<u8>,
)
    requires
        forall|m: int| 0 <= m < a.len() ==> !occurs_at(a + start + mid + end + c, start, m),
        forall|m: int|
            a.len() <= m < a.len() + start.len() + mid.len() ==> !occurs_at(
                a + start + mid + end + c,
                end,
                m,
            ),
    ensures
        truncation(a + start + mid + end + c, start, end, x) == Ok::<Seq<u8>, EditError>(
            a + x + c,
        ),
{
    let s = a + start + mid + end + c;
    let i = a.len() as int;
    let j = i + start.len() + mid.len();
    assert(s.subrange(i, i + start.len()) =~= start);
    assert(s.subrange(j, j + end.len()) =~= end);
    lemma_first_from_is(s, start, 0, i);
    lemma_first_from_is(s, end, i, j);
    assert(s.subrange(0, i) =~= a);
    assert(s.subrange(j + end.len(), s.len() as int) =~= c);
}

/// Truncation fails closed: where `end` does not occur at or after the first
/// occurrence of `start`, it reports that the pattern was not found.
pub proof fn lemma_truncation_fails_closed(s: Seq<u8>, start: Seq<u8>, end: Seq<u8>, x: Seq<u8>)
    requires
        first_from(s, start, 0) is Some,
        forall|m: int| first_from(s, start, 0)->0 <= m ==> !occurs_at(s, end, m),
    ensures
        truncation(s, start, end, x) == Err::<Seq<u8>, EditError>(EditError::PatternNotFound),
{
    lemma_first_from(s, start, 0);
    let i = first_from(s, start, 0)->0;
    lemma_first_from(s, end, i);
}

/// Valid UTF-8 that begins with a valid UTF-8 prefix continues with valid UTF-8.
proof fn lemma_valid_after_prefix(p: Seq<u8>, rest: Seq<u8>)
    requires
        valid_utf8(p),
        valid_utf8(p + rest),
    ensures
        valid_utf8(rest),
    decreases p.len(),
{
    let q = p + rest;
    if p.len() == 0 {
        assert(q =~= rest);
    } else {
        assert(valid_first_scalar(p));
        let w = length_of_first_scalar(p);
        assert(forall|j: int| 0 <= j < p.len() ==> q[j] == p[j]);
        assert(length_of_first_scalar(q) == w);
        assert(pop_first_scalar(q) =~= pop_first_scalar(p) + rest);
        lemma_valid_after_prefix(pop_first_scalar(p), rest);
    }
}

/// Scanning from a position where `s` continues as valid UTF-8, with a
/// valid pattern and replacement, yields valid UTF-8.
proof fn lemma_replaced_valid(s: Seq<u8>, p: Seq<u8>, r: Seq<u8>, i: int)
    requires
        valid_utf8(p),
        p.len() > 0,
        valid_utf8(r),
        0 <= i <= s.len(),
        valid_utf8(s.subrange(i, s.len() as int)),
    ensures
        valid_utf8(replaced_from(s, p, r, i)),
    decreases s.len() - i,
{
    lemma_replaced_split(s, p, r, i);
    lemma_first_from(s, p, i);
    if let Some(k) = first_from(s, p, i) {
        let t = s.subrange(i, s.len() as int);
        assert(valid_first_scalar(p));
        assert(t[k - i] == p[0]) by {
            assert(s.subrange(k, k + p.len())[0] == p[0]);
        }
        assert(!is_continuation_byte(t[k - i]));
        is_char_boundary_iff_not_is_continuation_byte(t, k - i);
        valid_utf8_split(t, k - i);
        assert(t.subrange(0, k - i) =~= s.subrange(i, k));
        assert(t.subrange(k - i, t.len() as int) =~= p + s.subrange(k + p.len(), s.len() as int));
        lemma_valid_after_prefix(p, s.subrange(k + p.len(), s.len() as int));
        lemma_replaced_valid(s, p, r, k + p.len());
        valid_utf8_concat(s.subrange(i, k), r);
        valid_utf8_concat(s.subrange(i, k) + r, replaced_from(s, p, r, k + p.len()));
    }
}

/// Literal replacement keeps text text: with valid UTF-8 input, pattern and
/// replacement, the result is valid UTF-8.
pub proof fn lemma_replace_all_keeps_utf8(s: Seq<u8>, p: Seq<u8>, r: Seq<u8>)
    requires
        valid_utf8(s),
        valid_utf8(p),
        valid_utf8(r),
    ensures
        valid_utf8(replace_all(s, p, r)),
{
    assert(s.subrange(0, s.len() as int) =~= s);
    if p.len() > 0 {
        lemma_replaced_valid(s, p, r, 0);
    } else if s.len() > 0 {
        assert(replace_all(s, p, r) == s.subrange(0, s.len() as int));
    }
}

/// An occurrence of `mk` inside the replacement shows up in the result,
/// inside the first replaced span.
pub proof fn lemma_replacement_occurs(s: Seq<u8>, p: Seq<u8>, r: Seq<u8>, mk: Seq<u8>, m: int)
    requires
        p.len() > 0,
        first_from(s, p, 0) is Some,
        occurs_at(r, mk, m),
    ensures
        occurs_at(replace_all(s, p, r), mk, first_from(s, p, 0)->0 + m),
{
    lemma_replaced_split(s, p, r, 0);
    lemma_first_from(s, p, 0);
    let k = first_from(s, p, 0)->0;
    let out = replace_all(s, p, r);
    let pre = s.subrange(0, k);
    let rest = replaced_from(s, p, r, k + p.len());
    assert(out == pre + r + rest);
    assert(out.subrange(k + m, k + m + mk.len()) =~= r.subrange(m, m + mk.len()));
}

/// The suffix `s[i..]` with `r` inserted before every byte that starts a
/// UTF-8 character, and once more at the end: on text, what replacing the
/// empty string does.
pub open spec fn inserted_from(s: Seq<u8>, r: Seq<u8>, i: int) -> Seq<u8>
    decreases s.len() - i,
{
    if i < 0 || i >= s.len() {
        r
    } else if is_continuation_byte(s[i]) {
        seq![s[i]] + inserted_from(s, r, i + 1)
    } else {
        r + seq![s[i]] + inserted_from(s, r, i + 1)
    }
}

/// Inserts `r` before every byte of `s` that starts a UTF-8 character, and
/// at the end.
pub fn insert_at_boundaries(s: &[u8], r: &[u8]) -> (out: Vec<u8>)
    ensures
        out@ == inserted_from(s@, r@, 0),
{
    let mut out: Vec<u8> = Vec::new();
    let mut i: usize = 0;
    assert(r@.subrange(0, r@.len() as int) =~= r@);
    while i < s.len()
        invariant
            i <= s.len(),
            out@ + inserted_from(s@, r@, i as int) == inserted_from(s@, r@, 0),
            r@.subrange(0, r@.len() as int) == r@,
        decreases s.len() - i,
    {
        let ghost before = out@;
        let b = s[i];
        if 0x80 <= b && b <= 0xbf {
            out.push(b);
            assert(before + (seq![b] + inserted_from(s@, r@, i + 1)) =~= out@ + inserted_from(
                s@,
                r@,
                i + 1,
            ));
        } else {
            push_range(&mut out, r, 0, r.len());
            out.push(b);
            assert(before + (r@ + seq![b] + inserted_from(s@, r@, i + 1)) =~= out@
                + inserted_from(s@, r@, i + 1));
        }
        i += 1;
    }
    push_range(&mut out, r, 0, r.len());
    out
}

} // verus!
