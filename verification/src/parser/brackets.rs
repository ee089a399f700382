//! Which bracket belongs to which: the matching relation on a source text,
//! and what a single left-to-right pass with a stack knows about it.

use vstd::prelude::*;

verus! {

/// Scanning right from `from`, with `depth` inner brackets open: the position
/// of the `]` that closes the enclosing bracket, or the length of the text
/// when nothing closes it.
pub open spec fn find_close(src: Seq<char>, from: int, depth: nat) -> int
    decreases src.len() - from,
{
    if from >= src.len() {
        src.len() as int
    } else if src[from] == '[' {
        find_close(src, from + 1, depth + 1)
    } else if src[from] == ']' {
        if depth == 0 {
            from
        } else {
            find_close(src, from + 1, (depth - 1) as nat)
        }
    } else {
        find_close(src, from + 1, depth)
    }
}

/// Scanning left from `from`, with `depth` inner brackets still to be
/// opened: the position of the `[` that opens the enclosing bracket, or -1
/// when nothing opens it.
pub open spec fn find_open(src: Seq<char>, from: int, depth: nat) -> int
    decreases from + 1,
{
    if from < 0 {
        -1
    } else if src[from] == ']' {
        find_open(src, from - 1, depth + 1)
    } else if src[from] == '[' {
        if depth == 0 {
            from
        } else {
            find_open(src, from - 1, (depth - 1) as nat)
        }
    } else {
        find_open(src, from - 1, depth)
    }
}

/// The position of the `]` that closes the `[` at `pos`; the length of the
/// text when that bracket is never closed.
pub open spec fn matching_close(src: Seq<char>, pos: int) -> int {
    find_close(src, pos + 1, 0)
}

/// The position of the `[` that opens the `]` at `pos`; -1 when that
/// bracket was never opened.
pub open spec fn matching_open(src: Seq<char>, pos: int) -> int {
    find_open(src, pos - 1, 0)
}

/// What a character adds to the nesting depth.
pub open spec fn bracket_weight(c: char) -> int {
    if c == '[' {
        1
    } else if c == ']' {
        -1
    } else {
        0
    }
}

/// Opening minus closing brackets among the characters from `from` up to,
/// not including, `to`.
pub open spec fn nesting(src: Seq<char>, from: int, to: int) -> int
    decreases to - from,
{
    if to <= from {
        0
    } else {
        nesting(src, from, to - 1) + bracket_weight(src[to - 1])
    }
}

/// Opening minus closing brackets strictly after the bracket at `open`, up
/// to `upto`.
pub open spec fn depth_within(src: Seq<char>, open: int, upto: int) -> int {
    nesting(src, open + 1, upto)
}

/// The nesting of a stretch is the sum of the nestings of its two parts.
pub proof fn lemma_nesting_split(src: Seq<char>, a: int, b: int, c: int)
    requires
        a <= b <= c,
    ensures
        nesting(src, a, c) == nesting(src, a, b) + nesting(src, b, c),
    decreases c - b,
{
    if c > b {
        lemma_nesting_split(src, a, b, c - 1);
    }
}

/// The nesting of a single character is its weight.
pub proof fn lemma_nesting_one(src: Seq<char>, a: int)
    ensures
        nesting(src, a, a + 1) == bracket_weight(src[a]),
{
    assert(nesting(src, a, a) == 0);
}

/// A scan for the closing bracket passes over a stretch in which the depth
/// never falls below zero.
pub proof fn lemma_find_close_skip(src: Seq<char>, a: int, b: int, depth: nat)
    requires
        0 <= a <= b <= src.len(),
        forall|m: int| a <= m <= b ==> depth + #[trigger] nesting(src, a, m) >= 0,
    ensures
        find_close(src, a, depth) == find_close(src, b, (depth + nesting(src, a, b)) as nat),
    decreases b - a,
{
    if b > a {
        lemma_find_close_skip(src, a, b - 1, depth);
        assert(depth + nesting(src, a, b - 1) >= 0);
        assert(depth + nesting(src, a, b) >= 0);
    }
}

/// A scan for the opening bracket passes over a stretch in which the depth
/// never falls below zero.
pub proof fn lemma_find_open_skip(src: Seq<char>, a: int, b: int, depth: nat)
    requires
        0 <= a <= b <= src.len(),
        forall|m: int| a <= m <= b ==> depth - #[trigger] nesting(src, m, b) >= 0,
    ensures
        find_open(src, b - 1, depth) == find_open(src, a - 1, (depth - nesting(src, a, b)) as nat),
    decreases b - a,
{
    if a < b {
        lemma_find_open_skip(src, a + 1, b, depth);
        lemma_nesting_split(src, a, a + 1, b);
        lemma_nesting_one(src, a);
        assert(depth - nesting(src, a + 1, b) >= 0);
        assert(depth - nesting(src, a, b) >= 0);
    } else {
        assert(nesting(src, a, b) == 0);
    }
}

/// Where a scan for the closing bracket ends, the depth has stayed at or
/// above zero all the way, and returns to zero at a bracket that was found.
pub proof fn lemma_find_close_props(src: Seq<char>, from: int, depth: nat)
    requires
        0 <= from <= src.len(),
    ensures
        from <= find_close(src, from, depth) <= src.len(),
        forall|m: int|
            from <= m <= find_close(src, from, depth) ==> depth + #[trigger] nesting(src, from, m)
                >= 0,
        find_close(src, from, depth) < src.len() ==> src[find_close(src, from, depth)] == ']'
            && depth + nesting(src, from, find_close(src, from, depth)) == 0,
    decreases src.len() - from,
{
    let q = find_close(src, from, depth);
    assert(nesting(src, from, from) == 0);
    if from < src.len() {
        let c = src[from];
        lemma_nesting_one(src, from);
        if c == '[' {
            lemma_find_close_props(src, from + 1, depth + 1);
        } else if c == ']' {
            if depth > 0 {
                lemma_find_close_props(src, from + 1, (depth - 1) as nat);
            }
        } else {
            lemma_find_close_props(src, from + 1, depth);
        }
        if !(c == ']' && depth == 0) {
            assert forall|m: int| from <= m <= q implies depth + #[trigger] nesting(src, from, m)
                >= 0 by {
                if m > from {
                    lemma_nesting_split(src, from, from + 1, m);
                    let d1 = (depth + nesting(src, from, from + 1)) as nat;
                    assert(d1 + nesting(src, from + 1, m) >= 0);
                }
            }
            if q < src.len() {
                lemma_nesting_split(src, from, from + 1, q);
            }
        }
    }
}

/// Where a scan for the opening bracket ends, the depth has stayed at or
/// above zero all the way, and returns to zero at a bracket that was found.
/// The scan starts just before `end`.
pub proof fn lemma_find_open_props(src: Seq<char>, end: int, depth: nat)
    requires
        0 <= end <= src.len(),
    ensures
        -1 <= find_open(src, end - 1, depth) < end,
        forall|m: int|
            find_open(src, end - 1, depth) < m <= end ==> depth - #[trigger] nesting(src, m, end)
                >= 0,
        find_open(src, end - 1, depth) >= 0 ==> src[find_open(src, end - 1, depth)] == '['
            && depth - nesting(src, find_open(src, end - 1, depth) + 1, end) == 0,
    decreases end,
{
    let q = find_open(src, end - 1, depth);
    assert(nesting(src, end, end) == 0);
    if end > 0 {
        let c = src[end - 1];
        let before = end - 1;
        if c == ']' {
            lemma_find_open_props(src, before, depth + 1);
        } else if c == '[' {
            if depth > 0 {
                lemma_find_open_props(src, before, (depth - 1) as nat);
            }
        } else {
            lemma_find_open_props(src, before, depth);
        }
        if !(c == '[' && depth == 0) {
            let inner = (depth - bracket_weight(c)) as nat;
            assert(q == find_open(src, before - 1, inner));
            assert forall|m: int| q < m <= end implies depth - #[trigger] nesting(src, m, end)
                >= 0 by {
                if m < end {
                    assert(inner - nesting(src, m, before) >= 0);
                }
            }
            if q >= 0 {
                assert(inner - nesting(src, q + 1, before) == 0);
            }
        }
    }
}

/// Matching is mutual: the `]` that closes a `[` is opened by that `[`.
pub proof fn lemma_close_of_open(src: Seq<char>, p: int)
    requires
        0 <= p < src.len(),
        src[p] == '[',
        matching_close(src, p) < src.len(),
    ensures
        p < matching_close(src, p),
        src[matching_close(src, p)] == ']',
        matching_open(src, matching_close(src, p)) == p,
{
    let q = matching_close(src, p);
    lemma_find_close_props(src, p + 1, 0);
    assert forall|m: int| p + 1 <= m <= q implies 0 - #[trigger] nesting(src, m, q) >= 0 by {
        assert(0 + nesting(src, p + 1, m) >= 0);
        lemma_nesting_split(src, p + 1, m, q);
    }
    lemma_find_open_skip(src, p + 1, q, 0);
}

/// Matching is mutual: the `[` that opens a `]` is closed by that `]`.
pub proof fn lemma_open_of_close(src: Seq<char>, q: int)
    requires
        0 <= q < src.len(),
        src[q] == ']',
        matching_open(src, q) >= 0,
    ensures
        matching_open(src, q) < q,
        src[matching_open(src, q)] == '[',
        matching_close(src, matching_open(src, q)) == q,
{
    let p = matching_open(src, q);
    lemma_find_open_props(src, q, 0);
    assert forall|m: int| p + 1 <= m <= q implies 0 + #[trigger] nesting(src, p + 1, m) >= 0 by {
        assert(0 - nesting(src, m, q) >= 0);
        lemma_nesting_split(src, p + 1, m, q);
    }
    lemma_find_close_skip(src, p + 1, q, 0);
}

/// The positions of the opening brackets that are still open once the first
/// `n` characters are read, outermost first.
pub open spec fn pending(src: Seq<char>, n: int) -> Seq<int>
    decreases n,
{
    if n <= 0 {
        Seq::empty()
    } else {
        let before = pending(src, n - 1);
        if src[n - 1] == '[' {
            before.push(n - 1)
        } else if src[n - 1] == ']' && before.len() > 0 {
            before.drop_last()
        } else {
            before
        }
    }
}

/// Where the stretch ends that follows entry `j` of `stack`: at the next
/// entry, or at `n` for the innermost.
pub open spec fn boundary(stack: Seq<int>, j: int, n: int) -> int {
    if j + 1 < stack.len() {
        stack[j + 1]
    } else {
        n
    }
}

/// Where the stretch ends that precedes every entry of `stack`.
pub open spec fn base(stack: Seq<int>, n: int) -> int {
    if stack.len() > 0 {
        stack[0]
    } else {
        n
    }
}

/// What holds of the open brackets `stack` once the first `n` characters
/// are read.
pub open spec fn pending_wf(src: Seq<char>, n: int, stack: Seq<int>) -> bool {
    &&& forall|j: int| 0 <= j < stack.len() ==> 0 <= #[trigger] stack[j] < n && src[stack[j]] == '['
    &&& forall|j: int, k: int|
        0 <= j < k < stack.len() ==> #[trigger] stack[j] < #[trigger] stack[k]
    &&& forall|j: int, m: int|
        0 <= j < stack.len() && stack[j] < m <= n ==> #[trigger] depth_within(src, stack[j], m)
            >= 0
    &&& forall|j: int|
        0 <= j < stack.len() ==> depth_within(src, #[trigger] stack[j], boundary(stack, j, n))
            == 0
    &&& forall|m: int| 0 <= m <= base(stack, n) ==> #[trigger] nesting(src, m, base(stack, n)) <= 0
    &&& forall|p: int|
        0 <= p < n && src[p] == '[' && !stack.contains(p) ==> #[trigger] matching_close(src, p)
            < n
}

/// The innermost open bracket and a `]` at `n` belong to each other.
pub proof fn lemma_top_matches(src: Seq<char>, n: int, stack: Seq<int>)
    requires
        0 <= n < src.len(),
        src[n] == ']',
        stack.len() > 0,
        pending_wf(src, n, stack),
    ensures
        matching_close(src, stack.last()) == n,
        matching_open(src, n) == stack.last(),
{
    let top = stack.len() - 1;
    let t = stack[top];
    assert(boundary(stack, top, n) == n);
    assert(depth_within(src, t, n) == 0);
    assert forall|m: int| t + 1 <= m <= n implies 0 + #[trigger] nesting(src, t + 1, m) >= 0 by {
        assert(depth_within(src, stack[top], m) >= 0);
    }
    lemma_find_close_skip(src, t + 1, n, 0);
    assert forall|m: int| t + 1 <= m <= n implies 0 - #[trigger] nesting(src, m, n) >= 0 by {
        assert(depth_within(src, stack[top], m) >= 0);
        lemma_nesting_split(src, t + 1, m, n);
    }
    lemma_find_open_skip(src, t + 1, n, 0);
}

/// With no bracket open, nothing opens a `]` at `n`.
pub proof fn lemma_no_opener(src: Seq<char>, n: int, stack: Seq<int>)
    requires
        0 <= n <= src.len(),
        stack.len() == 0,
        pending_wf(src, n, stack),
    ensures
        matching_open(src, n) == -1,
{
    assert(base(stack, n) == n);
    assert forall|m: int| 0 <= m <= n implies 0 - #[trigger] nesting(src, m, n) >= 0 by {
        assert(nesting(src, m, base(stack, n)) <= 0);
    }
    lemma_find_open_skip(src, 0, n, 0);
}

/// A bracket that is still open at the end of the text is never closed.
pub proof fn lemma_never_closed(src: Seq<char>, stack: Seq<int>, j: int)
    requires
        pending_wf(src, src.len() as int, stack),
        0 <= j < stack.len(),
    ensures
        matching_close(src, stack[j]) == src.len(),
{
    let t = stack[j];
    assert forall|m: int| t + 1 <= m <= src.len() implies 0 + #[trigger] nesting(src, t + 1, m)
        >= 0 by {
        assert(depth_within(src, stack[j], m) >= 0);
    }
    lemma_find_close_skip(src, t + 1, src.len() as int, 0);
}

/// Reading a `[` puts its position on the stack.
proof fn lemma_step_open(src: Seq<char>, n: int, s0: Seq<int>)
    requires
        1 <= n <= src.len(),
        src[n - 1] == '[',
        pending_wf(src, n - 1, s0),
    ensures
        pending_wf(src, n, s0.push(n - 1)),
{
    let s = s0.push(n - 1);
    assert forall|j: int| 0 <= j < s.len() implies 0 <= #[trigger] s[j] < n && src[s[j]]
        == '[' by {
        if j < s0.len() {
            assert(s[j] == s0[j]);
        }
    }
    assert forall|j: int, k: int| 0 <= j < k < s.len() implies #[trigger] s[j] < #[trigger] s[k] by {
        assert(s[j] == s0[j]);
        if k < s0.len() {
            assert(s[k] == s0[k]);
        }
    }
    assert forall|j: int, m: int| 0 <= j < s.len() && s[j] < m <= n implies #[trigger] depth_within(
        src,
        s[j],
        m,
    ) >= 0 by {
        if j < s0.len() {
            assert(s[j] == s0[j]);
            if m == n {
                assert(depth_within(src, s0[j], n - 1) >= 0);
            } else {
                assert(depth_within(src, s0[j], m) >= 0);
            }
        } else {
            assert(nesting(src, n, n) == 0);
        }
    }
    assert forall|j: int| 0 <= j < s.len() implies depth_within(
        src,
        #[trigger] s[j],
        boundary(s, j, n),
    ) == 0 by {
        if j < s0.len() {
            assert(s[j] == s0[j]);
            assert(depth_within(src, s0[j], boundary(s0, j, n - 1)) == 0);
            if j + 1 < s0.len() {
                assert(s[j + 1] == s0[j + 1]);
            }
            assert(boundary(s, j, n) == boundary(s0, j, n - 1));
        } else {
            assert(nesting(src, n, n) == 0);
        }
    }
    assert(s[0] == if s0.len() > 0 {
        s0[0]
    } else {
        n - 1
    });
    assert(base(s, n) == base(s0, n - 1));
    assert forall|p: int| 0 <= p < n && src[p] == '[' && !s.contains(p) implies #[trigger] matching_close(
        src,
        p,
    ) < n by {
        assert(s[s0.len() as int] == n - 1);
        if p == n - 1 {
            assert(s.contains(p));
        } else {
            if s0.contains(p) {
                let j = choose|j: int| 0 <= j < s0.len() && s0[j] == p;
                assert(s[j] == p);
                assert(s.contains(p));
            }
            assert(matching_close(src, p) < n - 1);
        }
    }
}

/// Reading a `]` while a bracket is open takes the innermost off the stack.
proof fn lemma_step_close(src: Seq<char>, n: int, s0: Seq<int>)
    requires
        1 <= n <= src.len(),
        src[n - 1] == ']',
        s0.len() > 0,
        pending_wf(src, n - 1, s0),
    ensures
        pending_wf(src, n, s0.drop_last()),
{
    let s = s0.drop_last();
    let top = s0.len() - 1;
    let t = s0[top];
    assert(boundary(s0, top, n - 1) == n - 1);
    assert(depth_within(src, t, n - 1) == 0);
    lemma_nesting_one(src, t);
    lemma_nesting_split(src, t, t + 1, n - 1);
    assert(nesting(src, t, n - 1) == 1);
    assert(nesting(src, t, n) == 0);

    assert forall|j: int| 0 <= j < s.len() implies 0 <= #[trigger] s[j] < n && src[s[j]]
        == '[' by {
        assert(s[j] == s0[j]);
    }
    assert forall|j: int, k: int| 0 <= j < k < s.len() implies #[trigger] s[j] < #[trigger] s[k] by {
        assert(s[j] == s0[j]);
        assert(s[k] == s0[k]);
    }
    assert forall|j: int, m: int| 0 <= j < s.len() && s[j] < m <= n implies #[trigger] depth_within(
        src,
        s[j],
        m,
    ) >= 0 by {
        assert(s[j] == s0[j]);
        assert(s0[j] < s0[top]);
        if m == n {
            assert(depth_within(src, s0[j], t) >= 0);
            lemma_nesting_split(src, s0[j] + 1, t, n - 1);
        } else {
            assert(depth_within(src, s0[j], m) >= 0);
        }
    }
    assert forall|j: int| 0 <= j < s.len() implies depth_within(
        src,
        #[trigger] s[j],
        boundary(s, j, n),
    ) == 0 by {
        assert(s[j] == s0[j]);
        assert(s0[j] < s0[top]);
        assert(depth_within(src, s0[j], boundary(s0, j, n - 1)) == 0);
        if j + 1 < s.len() {
            assert(s[j + 1] == s0[j + 1]);
        } else {
            assert(boundary(s0, j, n - 1) == t);
            lemma_nesting_split(src, s0[j] + 1, t, n);
        }
    }
    assert forall|m: int| 0 <= m <= base(s, n) implies #[trigger] nesting(src, m, base(s, n))
        <= 0 by {
        if s.len() > 0 {
            assert(s[0] == s0[0]);
            assert(nesting(src, m, base(s0, n - 1)) <= 0);
        } else {
            assert(base(s0, n - 1) == t);
            if m <= t {
                assert(nesting(src, m, base(s0, n - 1)) <= 0);
                lemma_nesting_split(src, m, t, n);
            } else if m < n {
                assert(depth_within(src, s0[top], m) >= 0);
                lemma_nesting_split(src, t + 1, m, n - 1);
            } else {
                assert(nesting(src, n, n) == 0);
            }
        }
    }
    assert forall|p: int| 0 <= p < n && src[p] == '[' && !s.contains(p) implies #[trigger] matching_close(
        src,
        p,
    ) < n by {
        if p == t {
            lemma_top_matches(src, n - 1, s0);
        } else {
            if s0.contains(p) {
                let j = choose|j: int| 0 <= j < s0.len() && s0[j] == p;
                assert(s[j] == p);
                assert(s.contains(p));
            }
            assert(matching_close(src, p) < n - 1);
        }
    }
}

/// Reading any other character, or a `]` that nothing opens, leaves the
/// stack as it is.
proof fn lemma_step_keep(src: Seq<char>, n: int, s0: Seq<int>)
    requires
        1 <= n <= src.len(),
        src[n - 1] != '[',
        src[n - 1] == ']' ==> s0.len() == 0,
        pending_wf(src, n - 1, s0),
    ensures
        pending_wf(src, n, s0),
{
    assert forall|j: int, m: int|
        0 <= j < s0.len() && s0[j] < m <= n implies #[trigger] depth_within(src, s0[j], m)
        >= 0 by {
        if m == n {
            assert(depth_within(src, s0[j], n - 1) >= 0);
        }
    }
    assert forall|j: int| 0 <= j < s0.len() implies depth_within(
        src,
        #[trigger] s0[j],
        boundary(s0, j, n),
    ) == 0 by {
        assert(depth_within(src, s0[j], boundary(s0, j, n - 1)) == 0);
    }
    assert forall|m: int| 0 <= m <= base(s0, n) implies #[trigger] nesting(src, m, base(s0, n))
        <= 0 by {
        if s0.len() == 0 {
            if m < n {
                assert(nesting(src, m, base(s0, n - 1)) <= 0);
            } else {
                assert(nesting(src, n, n) == 0);
            }
        } else {
            assert(nesting(src, m, base(s0, n - 1)) <= 0);
        }
    }
    assert forall|p: int| 0 <= p < n && src[p] == '[' && !s0.contains(p) implies #[trigger] matching_close(
        src,
        p,
    ) < n by {
        assert(matching_close(src, p) < n - 1);
    }
}

/// What a left-to-right pass has on its stack after `n` characters is
/// exactly the brackets that nothing has closed so far, and each stretch
/// between them is balanced.
pub proof fn lemma_pending_wf(src: Seq<char>, n: int)
    requires
        0 <= n <= src.len(),
    ensures
        pending_wf(src, n, pending(src, n)),
    decreases n,
{
    if n > 0 {
        lemma_pending_wf(src, n - 1);
        let s0 = pending(src, n - 1);
        if src[n - 1] == '[' {
            lemma_step_open(src, n, s0);
        } else if src[n - 1] == ']' && s0.len() > 0 {
            lemma_step_close(src, n, s0);
        } else {
            lemma_step_keep(src, n, s0);
        }
    } else {
        let s = pending(src, n);
        assert(s.len() == 0);
        assert(nesting(src, 0, 0) == 0);
    }
}

} // verus!
