use crate::token::{views, Token, TokenView};
use vstd::prelude::*;

verus! {

/// What a rule's answer denotes: no decision, or the replacement's tokens.
pub open spec fn answer_view<'a>(o: Option<Vec<Token<'a>>>) -> Option<Seq<TokenView>> {
    match o {
        Some(v) => Some(views(v@)),
        None => None,
    }
}

/// The rule may answer `out` on a window whose tokens denote `window`.
pub open spec fn answers<'a, F: Fn(Vec<Token<'a>>) -> Option<Vec<Token<'a>>>>(
    rule: F,
    window: Seq<TokenView>,
    out: Option<Seq<TokenView>>,
) -> bool {
    exists|w: Vec<Token<'a>>, o: Option<Vec<Token<'a>>>|
        #[trigger] rule.ensures((w,), o) && views(w@) == window && answer_view(o) == out
}

/// A rule the engine can drive: it accepts every non-empty window, and its
/// replacement is never longer than the window it replaces. (A rule that
/// lengthens what it matches can keep the sequence growing ahead of the scan
/// cursor forever.)
pub open spec fn is_rule<'a, F: Fn(Vec<Token<'a>>) -> Option<Vec<Token<'a>>>>(rule: F) -> bool {
    &&& forall|w: Vec<Token<'a>>| w.len() > 0 ==> #[trigger] rule.requires((w,))
    &&& forall|w: Vec<Token<'a>>, o: Option<Vec<Token<'a>>>|
        #[trigger] rule.ensures((w,), o) && o is Some ==> o->0.len() <= w.len()
}

/// `b` with the tokens at positions `[s, e)` replaced by `r`.
pub open spec fn splice(b: Seq<TokenView>, s: int, e: int, r: Seq<TokenView>) -> Seq<TokenView> {
    b.subrange(0, s) + r + b.subrange(e, b.len() as int)
}

/// Every window `[s, k)` with `s < k < e` drew no decision from the rule.
pub open spec fn undecided_below<'a, F: Fn(Vec<Token<'a>>) -> Option<Vec<Token<'a>>>>(
    rule: F,
    b: Seq<TokenView>,
    s: int,
    e: int,
) -> bool {
    forall|k: int| s < k < e ==> #[trigger] answers(rule, b.subrange(s, k), None)
}

/// One position of the scan: at cursor `s`, windows `[s, s + 1)`, `[s, s + 2)`,
/// ... are offered to the rule until it decides; the first decision is spliced
/// in. If no window up to the end draws a decision, the sequence is unchanged.
pub open spec fn scan_step<'a, F: Fn(Vec<Token<'a>>) -> Option<Vec<Token<'a>>>>(
    rule: F,
    b: Seq<TokenView>,
    s: int,
    b2: Seq<TokenView>,
) -> bool {
    &&& 0 <= s < b.len()
    &&& {
        ||| exists|e: int, r: Seq<TokenView>|
            s < e <= b.len() && undecided_below(rule, b, s, e) && #[trigger] answers(
                rule,
                b.subrange(s, e),
                Some(r),
            ) && b2 == splice(b, s, e, r)
        ||| undecided_below(rule, b, s, b.len() + 1int) && b2 == b
    }
}

/// `trace[i]` is the sequence when the cursor stands at `i`; each entry
/// follows from the previous one by one scan step, and the scan stops at the
/// first cursor position that reaches the end of the sequence.
pub open spec fn is_pass<'a, F: Fn(Vec<Token<'a>>) -> Option<Vec<Token<'a>>>>(
    rule: F,
    trace: Seq<Seq<TokenView>>,
) -> bool {
    &&& trace.len() >= 1
    &&& forall|i: int| 0 <= i < trace.len() - 1 ==> scan_step(rule, #[trigger] trace[i], i, trace[i + 1])
    &&& trace.last().len() <= trace.len() - 1
}

/// One full pass of the rule may turn `before` into `after`.
pub open spec fn pass_result<'a, F: Fn(Vec<Token<'a>>) -> Option<Vec<Token<'a>>>>(
    rule: F,
    before: Seq<TokenView>,
    after: Seq<TokenView>,
) -> bool {
    exists|trace: Seq<Seq<TokenView>>|
        #[trigger] is_pass(rule, trace) && trace[0] == before && trace.last() == after
}

/// A fresh copy of the tokens at positions `[start, end)`.
fn window<'a>(body: &Vec<Token<'a>>, start: usize, end: usize) -> (w: Vec<Token<'a>>)
    requires
        start <= end <= body@.len(),
    ensures
        views(w@) == views(body@).subrange(start as int, end as int),
        w@.len() == end - start,
{
    let mut w: Vec<Token<'a>> = Vec::new();
    let mut k: usize = start;
    while k < end
        invariant
            start <= k <= end <= body@.len(),
            views(w@) == views(body@).subrange(start as int, k as int),
            w@.len() == k - start,
        decreases end - k,
    {
        w.push(body[k].clone());
        k = k + 1;
        assert(views(w@) =~= views(body@).subrange(start as int, k as int));
    }
    w
}

/// Replaces the tokens at positions `[start, end)` of `body` by `replacement`.
fn splice_in<'a>(body: &mut Vec<Token<'a>>, start: usize, end: usize, replacement: Vec<Token<'a>>)
    requires
        start <= end <= old(body)@.len(),
    ensures
        final(body)@ == old(body)@.subrange(0, start as int) + replacement@ + old(
            body,
        )@.subrange(end as int, old(body)@.len() as int),
{
    let ghost b0 = body@;
    let mut k: usize = start;
    while k < end
        invariant
            start <= k <= end <= b0.len(),
            body@ == b0.subrange(0, start as int) + b0.subrange(k as int, b0.len() as int),
        decreases end - k,
    {
        body.remove(start);
        k = k + 1;
        assert(body@ =~= b0.subrange(0, start as int) + b0.subrange(k as int, b0.len() as int));
    }
    let ghost r0 = replacement@;
    let mut replacement = replacement;
    while replacement.len() > 0
        invariant
            start <= end <= b0.len(),
            replacement@.len() <= r0.len(),
            replacement@ == r0.subrange(0, replacement@.len() as int),
            body@ == b0.subrange(0, start as int) + r0.subrange(
                replacement@.len() as int,
                r0.len() as int,
            ) + b0.subrange(end as int, b0.len() as int),
        decreases replacement@.len(),
    {
        let t = replacement.pop().unwrap();
        body.insert(start, t);
        assert(replacement@ =~= r0.subrange(0, replacement@.len() as int));
        assert(body@ =~= b0.subrange(0, start as int) + r0.subrange(
            replacement@.len() as int,
            r0.len() as int,
        ) + b0.subrange(end as int, b0.len() as int));
    }
    assert(r0.subrange(0, r0.len() as int) =~= r0);
}

/// Applies `rule` across `body` in one pass. A cursor starts at the first
/// token; at each cursor position the windows that start there are offered to
/// the rule, one token longer each time, until it returns a replacement, which
/// is spliced in place of the window. The cursor then moves on by one
/// position, whether or not the rule decided and whatever the replacement's
/// length; the pass ends when the cursor reaches the end of the sequence.
/// Since the rule never lengthens what it replaces, the pass always ends.
pub fn process_rule<'a, F: Fn(Vec<Token<'a>>) -> Option<Vec<Token<'a>>>>(
    rule: F,
    body: &mut Vec<Token<'a>>,
)
    requires
        is_rule(rule),
    ensures
        pass_result(rule, views(old(body)@), views(final(body)@)),
{
    let ghost mut trace: Seq<Seq<TokenView>> = seq![views(body@)];
    let mut start: usize = 0;
    while start < body.len()
        invariant
            is_rule(rule),
            trace.len() == start + 1,
            trace[0] == views(old(body)@),
            trace.last() == views(body@),
            forall|i: int|
                0 <= i < trace.len() - 1 ==> scan_step(rule, #[trigger] trace[i], i, trace[i + 1]),
        decreases body@.len() + 1 - start,
    {
        let ghost b = views(body@);
        let mut end: usize = start + 1;
        let w = window(body, start, end);
        let ghost wg = w;
        let mut applied = rule(w);
        assert(answers(rule, b.subrange(start as int, end as int), answer_view(applied)));
        while end < body.len() && applied.is_none()
            invariant
                is_rule(rule),
                b == views(body@),
                start < end <= body@.len(),
                undecided_below(rule, b, start as int, end as int),
                answers(rule, b.subrange(start as int, end as int), answer_view(applied)),
                applied is Some ==> applied->0@.len() <= end - start,
            decreases body@.len() - end,
        {
            assert forall|k: int| start < k < end + 1 implies #[trigger] answers(
                rule,
                b.subrange(start as int, k),
                None,
            ) by {
                if k == end {
                }
            }
            end = end + 1;
            let w = window(body, start, end);
            let ghost wg = w;
            applied = rule(w);
            assert(answers(rule, b.subrange(start as int, end as int), answer_view(applied)));
        }
        match applied {
            Some(replacement) => {
                let ghost r = views(replacement@);
                splice_in(body, start, end, replacement);
                assert(views(body@) =~= splice(b, start as int, end as int, r));
            },
            None => {
                assert forall|k: int| start < k < b.len() + 1 implies #[trigger] answers(
                    rule,
                    b.subrange(start as int, k),
                    None,
                ) by {
                    if k == end {
                    }
                }
            },
        }
        proof {
            trace = trace.push(views(body@));
        }
        start = start + 1;
    }
    assert(is_pass(rule, trace));
}

/// Running the rules one after another, each pass to completion, may turn
/// `before` into `after`: `stages[i]` is the sequence before rule `i` runs.
pub open spec fn pipeline_result<'a, F: Fn(Vec<Token<'a>>) -> Option<Vec<Token<'a>>>>(
    rules: Seq<F>,
    before: Seq<TokenView>,
    after: Seq<TokenView>,
) -> bool {
    exists|stages: Seq<Seq<TokenView>>|
        {
            &&& stages.len() == rules.len() + 1
            &&& stages[0] == before
            &&& #[trigger] stages.last() == after
            &&& forall|i: int|
                0 <= i < rules.len() ==> pass_result(rules[i], #[trigger] stages[i], stages[i + 1])
        }
}

/// Applies each rule in order with [process_rule], each one to completion
/// before the next starts.
pub fn process_rules<'a, F: Fn(Vec<Token<'a>>) -> Option<Vec<Token<'a>>>>(
    rules: Vec<F>,
    body: &mut Vec<Token<'a>>,
)
    requires
        forall|i: int| 0 <= i < rules@.len() ==> is_rule(#[trigger] rules@[i]),
    ensures
        pipeline_result(rules@, views(old(body)@), views(final(body)@)),
{
    let ghost all = rules@;
    let ghost mut stages: Seq<Seq<TokenView>> = seq![views(body@)];
    let mut rules = rules;
    while rules.len() > 0
        invariant
            rules@.len() <= all.len(),
            rules@ == all.subrange(all.len() - rules@.len(), all.len() as int),
            forall|i: int| 0 <= i < all.len() ==> is_rule(#[trigger] all[i]),
            stages.len() == all.len() - rules@.len() + 1,
            stages[0] == views(old(body)@),
            stages.last() == views(body@),
            forall|i: int|
                0 <= i < stages.len() - 1 ==> pass_result(all[i], #[trigger] stages[i], stages[i + 1]),
        decreases rules@.len(),
    {
        let ghost done = all.len() - rules@.len();
        let rule = rules.remove(0);
        assert(rule == all[done]);
        process_rule(rule, body);
        proof {
            stages = stages.push(views(body@));
        }
        assert(rules@ =~= all.subrange(all.len() - rules@.len(), all.len() as int));
    }
    assert(stages.len() == all.len() + 1);
}

} // verus!
