use crate::engine::{answer_view, answers, is_pass, is_rule, pass_result, scan_step, splice, undecided_below};
use crate::token::{is_contiguous, joined, views, wrapped, Token, TokenView};
use vstd::prelude::*;

verus! {

/// A rule that hands every window back unchanged.
pub open spec fn is_identity_rule<'a, F: Fn(Vec<Token<'a>>) -> Option<Vec<Token<'a>>>>(
    rule: F,
) -> bool {
    forall|w: Vec<Token<'a>>, o: Option<Vec<Token<'a>>>|
        #[trigger] rule.ensures((w,), o) ==> o is Some && views(o->0@) == views(w@)
}

/// A rule that deletes every window of one token.
pub open spec fn is_deleting_rule<'a, F: Fn(Vec<Token<'a>>) -> Option<Vec<Token<'a>>>>(
    rule: F,
) -> bool {
    forall|w: Vec<Token<'a>>, o: Option<Vec<Token<'a>>>|
        #[trigger] rule.ensures((w,), o) && w@.len() == 1 ==> o is Some && o->0@.len() == 0
}

proof fn identity_answer<'a, F: Fn(Vec<Token<'a>>) -> Option<Vec<Token<'a>>>>(
    rule: F,
    window: Seq<TokenView>,
    out: Option<Seq<TokenView>>,
)
    requires
        is_identity_rule(rule),
        answers(rule, window, out),
    ensures
        out == Some(window),
{
    let (w, o) = choose|w: Vec<Token<'a>>, o: Option<Vec<Token<'a>>>|
        #[trigger] rule.ensures((w,), o) && views(w@) == window && answer_view(o) == out;
}

proof fn deleting_answer<'a, F: Fn(Vec<Token<'a>>) -> Option<Vec<Token<'a>>>>(
    rule: F,
    window: Seq<TokenView>,
    out: Option<Seq<TokenView>>,
)
    requires
        is_deleting_rule(rule),
        answers(rule, window, out),
        window.len() == 1,
    ensures
        out == Some(Seq::<TokenView>::empty()),
{
    let (w, o) = choose|w: Vec<Token<'a>>, o: Option<Vec<Token<'a>>>|
        #[trigger] rule.ensures((w,), o) && views(w@) == window && answer_view(o) == out;
    assert(views(o->0@) =~= Seq::<TokenView>::empty());
}

proof fn bounded_answer<'a, F: Fn(Vec<Token<'a>>) -> Option<Vec<Token<'a>>>>(
    rule: F,
    window: Seq<TokenView>,
    r: Seq<TokenView>,
)
    requires
        is_rule(rule),
        answers(rule, window, Some(r)),
    ensures
        r.len() <= window.len(),
{
    let (w, o) = choose|w: Vec<Token<'a>>, o: Option<Vec<Token<'a>>>|
        #[trigger] rule.ensures((w,), o) && views(w@) == window && answer_view(o) == Some(r);
}

proof fn step_never_grows<'a, F: Fn(Vec<Token<'a>>) -> Option<Vec<Token<'a>>>>(
    rule: F,
    b: Seq<TokenView>,
    i: int,
    b2: Seq<TokenView>,
)
    requires
        is_rule(rule),
        scan_step(rule, b, i, b2),
    ensures
        b2.len() <= b.len(),
{
    if exists|e: int, r: Seq<TokenView>|
        i < e <= b.len() && undecided_below(rule, b, i, e) && #[trigger] answers(
            rule,
            b.subrange(i, e),
            Some(r),
        ) && b2 == splice(b, i, e, r) {
        let (e, r) = choose|e: int, r: Seq<TokenView>|
            i < e <= b.len() && undecided_below(rule, b, i, e) && #[trigger] answers(
                rule,
                b.subrange(i, e),
                Some(r),
            ) && b2 == splice(b, i, e, r);
        bounded_answer(rule, b.subrange(i, e), r);
    }
}

proof fn trace_never_grows<'a, F: Fn(Vec<Token<'a>>) -> Option<Vec<Token<'a>>>>(
    rule: F,
    trace: Seq<Seq<TokenView>>,
    k: int,
)
    requires
        is_rule(rule),
        is_pass(rule, trace),
        0 <= k < trace.len(),
    ensures
        trace[k].len() <= trace[0].len(),
    decreases k,
{
    if k > 0 {
        trace_never_grows(rule, trace, k - 1);
        assert(scan_step(rule, trace[k - 1], k - 1, trace[k]));
        step_never_grows(rule, trace[k - 1], k - 1, trace[k]);
    }
}

/// A pass ends: under a rule that never lengthens what it replaces, the
/// sequence never grows, so the cursor, which moves on by one at every
/// position, stands on at most as many positions as the sequence had
/// tokens at the start.
pub proof fn pass_ends_within_length<'a, F: Fn(Vec<Token<'a>>) -> Option<Vec<Token<'a>>>>(
    rule: F,
    trace: Seq<Seq<TokenView>>,
)
    requires
        is_rule(rule),
        is_pass(rule, trace),
    ensures
        trace.len() <= trace[0].len() + 1,
        forall|i: int| 0 <= i < trace.len() ==> (#[trigger] trace[i]).len() <= trace[0].len(),
{
    assert forall|i: int| 0 <= i < trace.len() implies (#[trigger] trace[i]).len()
        <= trace[0].len() by {
        trace_never_grows(rule, trace, i);
    }
    if trace.len() >= 2 {
        let i = trace.len() - 2;
        assert(scan_step(rule, trace[i], i, trace[i + 1]));
    }
}

/// A pass of a rule that hands every window back unchanged leaves the
/// sequence as it was.
pub proof fn identity_rule_keeps_body<'a, F: Fn(Vec<Token<'a>>) -> Option<Vec<Token<'a>>>>(
    rule: F,
    before: Seq<TokenView>,
    after: Seq<TokenView>,
)
    requires
        is_identity_rule(rule),
        pass_result(rule, before, after),
    ensures
        after == before,
{
    let trace = choose|trace: Seq<Seq<TokenView>>|
        #[trigger] is_pass(rule, trace) && trace[0] == before && trace.last() == after;
    identity_trace_constant(rule, trace, trace.len() - 1);
}

proof fn identity_trace_constant<'a, F: Fn(Vec<Token<'a>>) -> Option<Vec<Token<'a>>>>(
    rule: F,
    trace: Seq<Seq<TokenView>>,
    k: int,
)
    requires
        is_identity_rule(rule),
        is_pass(rule, trace),
        0 <= k < trace.len(),
    ensures
        trace[k] == trace[0],
    decreases k,
{
    if k > 0 {
        let i = k - 1;
        identity_trace_constant(rule, trace, i);
        let b = trace[i];
        assert(scan_step(rule, trace[i], i, trace[i + 1]));
        if exists|e: int, r: Seq<TokenView>|
            i < e <= b.len() && undecided_below(rule, b, i, e) && #[trigger] answers(
                rule,
                b.subrange(i, e),
                Some(r),
            ) && trace[i + 1] == splice(b, i, e, r) {
            let (e, r) = choose|e: int, r: Seq<TokenView>|
                i < e <= b.len() && undecided_below(rule, b, i, e) && #[trigger] answers(
                    rule,
                    b.subrange(i, e),
                    Some(r),
                ) && trace[i + 1] == splice(b, i, e, r);
            identity_answer(rule, b.subrange(i, e), Some(r));
            assert(splice(b, i, e, r) =~= b);
        }
    }
}

/// The first `count` tokens of `before` that stand at odd positions.
pub open spec fn odd_positions(before: Seq<TokenView>, count: int) -> Seq<TokenView> {
    Seq::new(count as nat, |j: int| before[2 * j + 1])
}

/// A pass of a rule that deletes every single token leaves the tokens that
/// stood at odd positions: each deletion shifts the next token onto the
/// cursor, which then moves past it.
pub proof fn deleting_rule_keeps_odd_positions<'a, F: Fn(Vec<Token<'a>>) -> Option<Vec<Token<'a>>>>(
    rule: F,
    before: Seq<TokenView>,
    after: Seq<TokenView>,
)
    requires
        is_deleting_rule(rule),
        pass_result(rule, before, after),
    ensures
        after == odd_positions(before, before.len() as int / 2),
{
    let n = before.len() as int;
    let trace = choose|trace: Seq<Seq<TokenView>>|
        #[trigger] is_pass(rule, trace) && trace[0] == before && trace.last() == after;
    deleting_trace_state(rule, before, trace, trace.len() - 1);
    assert(after =~= odd_positions(before, n / 2));
}

/// The sequence when the cursor stands at `i`, in a pass of a deleting rule.
spec fn deleting_state(before: Seq<TokenView>, i: int) -> Seq<TokenView> {
    let n = before.len() as int;
    odd_positions(before, if i < n / 2 { i } else { n / 2 }) + before.subrange(
        if 2 * i < n { 2 * i } else { n },
        n,
    )
}

proof fn deleting_trace_state<'a, F: Fn(Vec<Token<'a>>) -> Option<Vec<Token<'a>>>>(
    rule: F,
    before: Seq<TokenView>,
    trace: Seq<Seq<TokenView>>,
    k: int,
)
    requires
        is_deleting_rule(rule),
        is_pass(rule, trace),
        trace[0] == before,
        0 <= k < trace.len(),
    ensures
        2 * k <= before.len() + 1,
        trace[k] == deleting_state(before, k),
    decreases k,
{
    if k == 0 {
        assert(trace[0] =~= deleting_state(before, 0));
    } else {
        let i = k - 1;
        deleting_trace_state(rule, before, trace, i);
        let b = trace[i];
        assert(scan_step(rule, trace[i], i, trace[i + 1]));
        deleting_step(rule, b, i, trace[i + 1]);
        deleting_state_next(before, i);
    }
}

proof fn deleting_state_next(before: Seq<TokenView>, i: int)
    requires
        0 <= 2 * i < before.len(),
    ensures
        splice(deleting_state(before, i), i, i + 1, Seq::empty()) == deleting_state(before, i + 1),
{
    let n = before.len() as int;
    let b = deleting_state(before, i);
    assert(b == odd_positions(before, i) + before.subrange(2 * i, n));
    let k = i + 1;
    let next = if k < n / 2 { k } else { n / 2 };
    let from = if 2 * k < n { 2 * k } else { n };
    assert(deleting_state(before, k) == odd_positions(before, next) + before.subrange(from, n));
    assert(splice(b, i, i + 1, Seq::empty()) =~= odd_positions(before, next) + before.subrange(
        from,
        n,
    ));
}

proof fn deleting_step<'a, F: Fn(Vec<Token<'a>>) -> Option<Vec<Token<'a>>>>(
    rule: F,
    b: Seq<TokenView>,
    i: int,
    b2: Seq<TokenView>,
)
    requires
        is_deleting_rule(rule),
        scan_step(rule, b, i, b2),
    ensures
        b2 == splice(b, i, i + 1, Seq::empty()),
{
    let one = b.subrange(i, i + 1);
    assert forall|out: Option<Seq<TokenView>>| #[trigger]
        answers(rule, one, out) implies out == Some(Seq::<TokenView>::empty()) by {
        deleting_answer(rule, one, out);
    }
    if exists|e: int, r: Seq<TokenView>|
        i < e <= b.len() && undecided_below(rule, b, i, e) && #[trigger] answers(
            rule,
            b.subrange(i, e),
            Some(r),
        ) && b2 == splice(b, i, e, r) {
        let (e, r) = choose|e: int, r: Seq<TokenView>|
            i < e <= b.len() && undecided_below(rule, b, i, e) && #[trigger] answers(
                rule,
                b.subrange(i, e),
                Some(r),
            ) && b2 == splice(b, i, e, r);
        if e > i + 1 {
            assert(answers(rule, b.subrange(i, i + 1), None));
        }
    } else {
        assert(answers(rule, b.subrange(i, i + 1), None));
    }
}

/// A pass of a rule that deletes every single token empties a sequence of
/// at most one token.
pub proof fn deleting_rule_empties_short_body<'a, F: Fn(Vec<Token<'a>>) -> Option<Vec<Token<'a>>>>(
    rule: F,
    before: Seq<TokenView>,
    after: Seq<TokenView>,
)
    requires
        is_deleting_rule(rule),
        pass_result(rule, before, after),
        before.len() <= 1,
    ensures
        after.len() == 0,
{
    deleting_rule_keeps_odd_positions(rule, before, after);
}

/// Merging a contiguous run of tokens over one buffer gives a token whose
/// content is the run's contents joined in order, and whose tags are
/// exactly the ones supplied.
pub proof fn wrap_joins_contents(run: Seq<TokenView>, tags: Seq<Seq<char>>)
    requires
        is_contiguous(run),
    ensures
        wrapped(run, tags).wf(),
        wrapped(run, tags).content() == joined(run),
        wrapped(run, tags).tags == tags || run.len() == 0,
        run.len() == 0 ==> wrapped(run, tags) == TokenView::empty(),
    decreases run.len(),
{
    if run.len() == 0 {
        assert(TokenView::empty().content() =~= Seq::<char>::empty());
    } else if run.len() == 1 {
        assert(run.drop_last() =~= Seq::<TokenView>::empty());
        assert(joined(run.drop_last()) =~= Seq::<char>::empty());
        assert(joined(run) =~= run[0].content());
    } else {
        let front = run.drop_last();
        assert(is_contiguous(front));
        wrap_joins_contents(front, tags);
        let body = run[0].body;
        let s = run[0].start;
        let m = front.last().end;
        let e = run.last().end;
        assert(m == run.last().start);
        assert(body.subrange(s, e) =~= body.subrange(s, m) + body.subrange(m, e));
    }
}

} // verus!
