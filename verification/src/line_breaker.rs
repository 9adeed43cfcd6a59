//! Greedy line breaking over prepared inline items.
//!
//! The breaker works on a plain summary of the prepared items (which items are content and
//! where breaks may fall) and reports each line as the positions of its items. Whether a
//! pending line still fits is asked of the caller, who owns the measured advances.
use crate::line_break::BreakOpportunity;
use vstd::prelude::*;

verus! {

broadcast use vstd::seq_lib::group_seq_properties;

/// Plain summary of one prepared inline item, as read by the line breaker.
#[derive(Clone, Copy, Debug, PartialEq, Eq, Structural)]
pub enum LineItem {
    /// A measured glyph and the opportunity after it.
    Glyph { break_after: BreakOpportunity },
    /// An inline atom, by index, and the opportunity recorded after it.
    Atom { atom_index: usize, break_after: BreakOpportunity },
    /// An explicit break item.
    Break(BreakOpportunity),
}

impl LineItem {
    /// The opportunity recorded on the item itself.
    pub fn break_after(&self) -> (b: BreakOpportunity)
        ensures
            b == match *self {
                LineItem::Glyph { break_after } => break_after,
                LineItem::Atom { break_after, .. } => break_after,
                LineItem::Break(b) => b,
            },
    {
        match *self {
            LineItem::Glyph { break_after } => break_after,
            LineItem::Atom { break_after, .. } => break_after,
            LineItem::Break(b) => b,
        }
    }
}

/// Content items are the ones that occupy space on a line.
pub open spec fn is_content(item: LineItem) -> bool {
    !(item is Break)
}

/// The opportunity recorded by the first atom item, at or after `from`, with the given index.
pub open spec fn atom_break_from(items: Seq<LineItem>, atom_index: usize, from: nat) -> BreakOpportunity
    decreases items.len() - from,
{
    if from >= items.len() {
        BreakOpportunity::Forbidden
    } else {
        match items[from as int] {
            LineItem::Atom { atom_index: a, break_after } => {
                if a == atom_index {
                    break_after
                } else {
                    atom_break_from(items, atom_index, from + 1)
                }
            },
            _ => atom_break_from(items, atom_index, from + 1),
        }
    }
}

/// The opportunity after the item at `pos` once it sits on a pending line.
pub open spec fn pending_break_after(items: Seq<LineItem>, pos: int) -> BreakOpportunity {
    match items[pos] {
        LineItem::Glyph { break_after } => break_after,
        LineItem::Atom { atom_index, .. } => atom_break_from(items, atom_index, 0),
        LineItem::Break(b) => b,
    }
}

/// Length of the longest prefix of `line` that ends after an allowed break, if any.
pub open spec fn last_allowed_break(items: Seq<LineItem>, line: Seq<usize>) -> Option<int>
    decreases line.len(),
{
    if line.len() == 0 {
        None
    } else if pending_break_after(items, line.last() as int) == BreakOpportunity::Allowed {
        Some(line.len() as int)
    } else {
        last_allowed_break(items, line.drop_last())
    }
}

/// Splits an overfull pending line: at its last allowed break when that leaves something
/// behind, otherwise by moving its last item to a new line.
pub open spec fn wrap_line(items: Seq<LineItem>, lines: Seq<Seq<usize>>, current: Seq<usize>) -> (
    Seq<Seq<usize>>,
    Seq<usize>,
) {
    let b = last_allowed_break(items, current);
    if b is Some && b->0 < current.len() {
        (lines.push(current.take(b->0)), current.skip(b->0))
    } else if current.len() > 0 {
        (lines.push(current.drop_last()), seq![current.last()])
    } else {
        (lines, current)
    }
}

/// One step of greedy breaking: the item at `pos` is consumed, and `fits` tells whether the
/// pending line with that item still fits. With `eager_overflow`, a single item that does
/// not fit is emitted as a line of its own at once; otherwise it stays pending.
pub open spec fn break_step(
    items: Seq<LineItem>,
    eager_overflow: bool,
    state: (Seq<Seq<usize>>, Seq<usize>),
    pos: int,
    fits: bool,
) -> (Seq<Seq<usize>>, Seq<usize>) {
    match items[pos] {
        LineItem::Break(BreakOpportunity::Mandatory) => (state.0.push(state.1), Seq::empty()),
        LineItem::Break(_) => state,
        _ => {
            let current = state.1.push(pos as usize);
            if fits || current.len() == 1 {
                if eager_overflow && !fits && current.len() == 1 {
                    (state.0.push(current), Seq::empty())
                } else {
                    (state.0, current)
                }
            } else {
                wrap_line(items, state.0, current)
            }
        },
    }
}

/// The finished lines and the pending line after the first `n` items, given the fit
/// answer for each item.
pub open spec fn break_run(items: Seq<LineItem>, eager_overflow: bool, answers: Seq<bool>, n: nat) -> (
    Seq<Seq<usize>>,
    Seq<usize>,
)
    decreases n,
{
    if n == 0 {
        (Seq::empty(), Seq::empty())
    } else {
        break_step(
            items,
            eager_overflow,
            break_run(items, eager_overflow, answers, (n - 1) as nat),
            n - 1,
            answers[n - 1],
        )
    }
}

/// All lines once every item is consumed; a non-empty pending line becomes the last line.
pub open spec fn broken_lines(items: Seq<LineItem>, eager_overflow: bool, answers: Seq<bool>) -> Seq<
    Seq<usize>,
> {
    let state = break_run(items, eager_overflow, answers, items.len());
    if state.1.len() > 0 {
        state.0.push(state.1)
    } else {
        state.0
    }
}

/// The pending line on which the fit question for the content item at `k` is asked.
pub open spec fn queried_line(
    items: Seq<LineItem>,
    eager_overflow: bool,
    answers: Seq<bool>,
    k: int,
) -> Seq<usize> {
    break_run(items, eager_overflow, answers, k as nat).1.push(k as usize)
}

/// Positions of the content items among the first `n` items, in order.
pub open spec fn content_positions(items: Seq<LineItem>, n: nat) -> Seq<usize>
    decreases n,
{
    if n == 0 {
        Seq::empty()
    } else if is_content(items[n - 1]) {
        content_positions(items, (n - 1) as nat).push((n - 1) as usize)
    } else {
        content_positions(items, (n - 1) as nat)
    }
}

/// The lines as sequences of positions.
pub open spec fn lines_view(lines: Seq<Vec<usize>>) -> Seq<Seq<usize>> {
    lines.map_values(|line: Vec<usize>| line@)
}

pub open spec fn opt_int(o: Option<usize>) -> Option<int> {
    match o {
        Some(b) => Some(b as int),
        None => None,
    }
}

/// A pending line: the positions of its items and the cached length of its longest prefix
/// that ends after an allowed break.
pub struct PendingLine {
    items: Vec<usize>,
    last_allowed_break: Option<usize>,
}

impl PendingLine {
    pub closed spec fn positions(&self) -> Seq<usize> {
        self.items@
    }

    /// The cached break agrees with the items, and every position names an item.
    pub closed spec fn wf(&self, items: Seq<LineItem>) -> bool {
        &&& forall|k: int| 0 <= k < self.items@.len() ==> self.items@[k] < items.len()
        &&& opt_int(self.last_allowed_break) == last_allowed_break(items, self.items@)
    }

    /// The cached length of the longest prefix that ends after an allowed break.
    pub fn last_allowed_break(&self) -> (b: Option<usize>)
        ensures
            opt_int(b) == self.cached_break(),
    {
        self.last_allowed_break
    }

    pub closed spec fn cached_break(&self) -> Option<int> {
        opt_int(self.last_allowed_break)
    }

    /// On a well-formed pending line, the cached break is the length of the longest prefix
    /// that ends after an allowed break, and every position names an item.
    pub proof fn lemma_wf_meaning(&self, items: Seq<LineItem>)
        requires
            self.wf(items),
        ensures
            self.cached_break() == last_allowed_break(items, self.positions()),
            forall|k: int| 0 <= k < self.positions().len() ==> #[trigger] self.positions()[k] < items.len(),
    {
    }

    /// An empty pending line.
    pub fn new() -> (line: Self)
        ensures
            line.positions() == Seq::<usize>::empty(),
            forall|items: Seq<LineItem>| line.wf(items),
    {
        PendingLine { items: Vec::new(), last_allowed_break: None }
    }

    /// Appends the item at `pos`.
    pub fn push(&mut self, items: &Vec<LineItem>, pos: usize)
        requires
            old(self).wf(items@),
            pos < items.len(),
        ensures
            final(self).positions() == old(self).positions().push(pos),
            final(self).wf(items@),
    {
        self.items.push(pos);
        let break_after = item_break_after(items, pos);
        if break_after == BreakOpportunity::Allowed {
            self.last_allowed_break = Some(self.items.len());
        }
        assert(self.items@.drop_last() =~= old(self).items@);
    }

    /// Builds a pending line by pushing each position in turn.
    pub fn from_items(positions: Vec<usize>, items: &Vec<LineItem>) -> (line: Self)
        requires
            forall|k: int| 0 <= k < positions@.len() ==> positions@[k] < items.len(),
        ensures
            line.positions() == positions@,
            line.wf(items@),
    {
        let mut pending = PendingLine::new();
        let mut i: usize = 0;
        while i < positions.len()
            invariant
                i <= positions.len(),
                forall|k: int| 0 <= k < positions@.len() ==> positions@[k] < items.len(),
                pending.wf(items@),
                pending.positions() == positions@.take(i as int),
            decreases positions.len() - i,
        {
            pending.push(items, positions[i]);
            assert(positions@.take(i + 1) =~= positions@.take(i as int).push(positions@[i as int]));
            i += 1;
        }
        assert(positions@.take(positions.len() as int) =~= positions@);
        pending
    }

    /// Recomputes the cached break from the items, scanning from the end.
    fn recompute(&mut self, items: &Vec<LineItem>)
        requires
            forall|k: int| 0 <= k < old(self).items@.len() ==> old(self).items@[k] < items.len(),
        ensures
            final(self).items@ == old(self).items@,
            final(self).wf(items@),
    {
        let mut i: usize = self.items.len();
        while i > 0
            invariant
                i <= self.items@.len(),
                self.items@ == old(self).items@,
                forall|k: int| 0 <= k < self.items@.len() ==> self.items@[k] < items.len(),
                last_allowed_break(items@, self.items@.take(i as int)) == last_allowed_break(
                    items@,
                    self.items@,
                ),
            decreases i,
        {
            assert(self.items@.take(i as int).drop_last() =~= self.items@.take(i - 1));
            if item_break_after(items, self.items[i - 1]) == BreakOpportunity::Allowed {
                self.last_allowed_break = Some(i);
                return;
            }
            i -= 1;
        }
        self.last_allowed_break = None;
    }

    /// Removes and returns the last item, if any.
    pub fn pop_last(&mut self, items: &Vec<LineItem>) -> (last: Option<usize>)
        requires
            old(self).wf(items@),
        ensures
            final(self).wf(items@),
            old(self).positions().len() == 0 ==> last is None && final(self).positions()
                == old(self).positions(),
            old(self).positions().len() > 0 ==> last == Some(old(self).positions().last())
                && final(self).positions() == old(self).positions().drop_last(),
    {
        match self.items.pop() {
            Some(last) => {
                self.recompute(items);
                Some(last)
            },
            None => None,
        }
    }

    /// Keeps the first `at` items and returns the rest.
    pub fn split_off(&mut self, at: usize, items: &Vec<LineItem>) -> (rest: Vec<usize>)
        requires
            old(self).wf(items@),
            at <= old(self).positions().len(),
        ensures
            final(self).wf(items@),
            final(self).positions() == old(self).positions().take(at as int),
            rest@ == old(self).positions().skip(at as int),
    {
        let rest = self.items.split_off(at);
        self.recompute(items);
        rest
    }

    /// Empties the pending line and returns its items.
    pub fn take(&mut self) -> (taken: Vec<usize>)
        ensures
            taken@ == old(self).positions(),
            final(self).positions() == Seq::<usize>::empty(),
            forall|items: Seq<LineItem>| final(self).wf(items),
    {
        self.last_allowed_break = None;
        let mut taken = Vec::new();
        std::mem::swap(&mut taken, &mut self.items);
        taken
    }

    /// Whether the pending line holds no item.
    pub fn is_empty(&self) -> (empty: bool)
        ensures
            empty == (self.positions().len() == 0),
    {
        self.items.len() == 0
    }

    /// The number of items on the pending line.
    pub fn len(&self) -> (n: usize)
        ensures
            n == self.positions().len(),
    {
        self.items.len()
    }

    /// The positions of the items on the pending line.
    pub fn positions_vec(&self) -> (positions: &Vec<usize>)
        ensures
            positions@ == self.positions(),
    {
        &self.items
    }
}

/// The opportunity recorded by the first atom item with the given index.
fn atom_break_after(items: &Vec<LineItem>, atom_index: usize) -> (b: BreakOpportunity)
    ensures
        b == atom_break_from(items@, atom_index, 0),
{
    let mut i: usize = 0;
    while i < items.len()
        invariant
            i <= items.len(),
            atom_break_from(items@, atom_index, 0) == atom_break_from(items@, atom_index, i as nat),
        decreases items.len() - i,
    {
        if let LineItem::Atom { atom_index: current, break_after } = items[i] {
            if current == atom_index {
                return break_after;
            }
        }
        i += 1;
    }
    BreakOpportunity::Forbidden
}

/// The opportunity after the item at `pos` on a pending line.
pub fn item_break_after(items: &Vec<LineItem>, pos: usize) -> (b: BreakOpportunity)
    requires
        pos < items.len(),
    ensures
        b == pending_break_after(items@, pos as int),
{
    match items[pos] {
        LineItem::Glyph { break_after } => break_after,
        LineItem::Atom { atom_index, .. } => atom_break_after(items, atom_index),
        LineItem::Break(b) => b,
    }
}

proof fn lemma_lines_view_push(lines: Seq<Vec<usize>>, line: Vec<usize>)
    ensures
        lines_view(lines.push(line)) == lines_view(lines).push(line@),
{
    assert(lines_view(lines.push(line)) =~= lines_view(lines).push(line@));
}

/// Splits an overfull pending line into a finished line and a new pending line: at the
/// last allowed break when that leaves items behind, otherwise before the last item.
pub fn wrap_pending_line(
    lines: &mut Vec<Vec<usize>>,
    current: &mut PendingLine,
    items: &Vec<LineItem>,
)
    requires
        old(current).wf(items@),
    ensures
        final(current).wf(items@),
        (lines_view(final(lines)@), final(current).positions()) == wrap_line(
            items@,
            lines_view(old(lines)@),
            old(current).positions(),
        ),
{
    let split_at = match current.last_allowed_break() {
        Some(break_len) => {
            if break_len < current.len() {
                Some(break_len)
            } else {
                None
            }
        },
        None => None,
    };
    let ghost old_lines = lines@;
    let ghost old_positions = current.positions();
    if let Some(break_len) = split_at {
        let remainder = current.split_off(break_len, items);
        let finished = current.take();
        proof {
            lemma_lines_view_push(lines@, finished);
        }
        lines.push(finished);
        *current = PendingLine::from_items(remainder, items);
    } else {
        let overflow = current.pop_last(items);
        if let Some(overflow) = overflow {
            let finished = current.take();
            proof {
                lemma_lines_view_push(lines@, finished);
            }
            lines.push(finished);
            let single = vec![overflow];
            assert(single@ =~= seq![old_positions.last()]);
            *current = PendingLine::from_items(single, items);
        }
    }
}

/// Running on answers that agree on the first `n` items gives the same state.
pub proof fn lemma_run_depends_on_prefix(
    items: Seq<LineItem>,
    eager_overflow: bool,
    a: Seq<bool>,
    b: Seq<bool>,
    n: nat,
)
    requires
        n <= a.len(),
        n <= b.len(),
        forall|i: int| 0 <= i < n ==> a[i] == b[i],
    ensures
        break_run(items, eager_overflow, a, n) == break_run(items, eager_overflow, b, n),
    decreases n,
{
    if n > 0 {
        lemma_run_depends_on_prefix(items, eager_overflow, a, b, (n - 1) as nat);
    }
}

/// For the first `n` items, each content item's answer came from `fits` on its pending line.
pub open spec fn answered_prefix<F: Fn(&Vec<usize>) -> bool>(
    fits: F,
    items: Seq<LineItem>,
    eager_overflow: bool,
    answers: Seq<bool>,
    queried: Seq<Vec<usize>>,
    n: nat,
) -> bool {
    forall|k: int|
        0 <= k < n && is_content(items[k]) ==> {
            &&& #[trigger] queried[k]@ == queried_line(items, eager_overflow, answers, k)
            &&& call_ensures(fits, (&queried[k],), answers[k])
        }
}

/// The fit answers that a run received, and the pending lines they were asked about.
pub open spec fn answered_by<F: Fn(&Vec<usize>) -> bool>(
    fits: F,
    items: Seq<LineItem>,
    eager_overflow: bool,
    answers: Seq<bool>,
    queried: Seq<Vec<usize>>,
) -> bool {
    &&& answers.len() == items.len()
    &&& queried.len() == items.len()
    &&& forall|k: int|
        0 <= k < items.len() && is_content(items[k]) ==> {
            &&& #[trigger] queried[k]@ == queried_line(items, eager_overflow, answers, k)
            &&& call_ensures(fits, (&queried[k],), answers[k])
        }
}

/// Greedy breaking shared by the block and paragraph paths; `fits` is asked, after each
/// content item is appended, whether the pending line still fits.
#[verifier::spinoff_prover]
#[verifier::rlimit(30)]
fn break_items<F: Fn(&Vec<usize>) -> bool>(items: &Vec<LineItem>, fits: F, eager_overflow: bool) -> (lines: Vec<Vec<usize>>)
    requires
        forall|line: &Vec<usize>| call_requires(fits, (line,)),
    ensures
        exists|answers: Seq<bool>, queried: Seq<Vec<usize>>|
            {
                &&& answered_by(fits, items@, eager_overflow, answers, queried)
                &&& #[trigger] lines_view(lines@) == broken_lines(items@, eager_overflow, answers)
                &&& queried.len() == answers.len()
            },
{
    let mut lines: Vec<Vec<usize>> = Vec::new();
    let mut current = PendingLine::new();
    let ghost mut answers: Seq<bool> = Seq::empty();
    let ghost mut queried: Seq<Vec<usize>> = Seq::empty();
    let mut pos: usize = 0;
    while pos < items.len()
        invariant
            pos <= items.len(),
            forall|line: &Vec<usize>| call_requires(fits, (line,)),
            current.wf(items@),
            answers.len() == pos,
            queried.len() == pos,
            (lines_view(lines@), current.positions()) == break_run(
                items@,
                eager_overflow,
                answers,
                pos as nat,
            ),
            answered_prefix(fits, items@, eager_overflow, answers, queried, pos as nat),
        decreases items.len() - pos,
    {
        let ghost prev_answers = answers;
        let ghost old_queried = queried;
        let ghost prev_state = (lines_view(lines@), current.positions());
        let fit_answer: bool;
        let ghost mut asked: Seq<usize> = Seq::empty();
        match items[pos] {
            LineItem::Break(BreakOpportunity::Mandatory) => {
                let finished = current.take();
                proof {
                    lemma_lines_view_push(lines@, finished);
                }
                lines.push(finished);
                fit_answer = false;
                proof {
                    queried = queried.push(vstd::pervasive::arbitrary());
                }
            },
            LineItem::Break(_) => {
                fit_answer = false;
                proof {
                    queried = queried.push(vstd::pervasive::arbitrary());
                }
            },
            _ => {
                current.push(items, pos);
                let fits_now = fits(&current.items);
                fit_answer = fits_now;
                proof {
                    queried = queried.push(current.items);
                    asked = current.positions();
                    assert(call_ensures(fits, (&queried[pos as int],), fit_answer));
                }
                if fits_now || current.len() == 1 {
                    if eager_overflow && !fits_now && current.len() == 1 {
                        let finished = current.take();
                        proof {
                            lemma_lines_view_push(lines@, finished);
                        }
                        lines.push(finished);
                    }
                } else {
                    wrap_pending_line(&mut lines, &mut current, items);
                }
            },
        }
        proof {
            answers = answers.push(fit_answer);
            lemma_run_depends_on_prefix(items@, eager_overflow, prev_answers, answers, pos as nat);
        }
        pos += 1;
        proof {
            assert(answered_prefix(fits, items@, eager_overflow, answers, queried, pos as nat)) by {
                assert forall|k: int|
                    0 <= k < pos && is_content(items@[k]) implies {
                        &&& #[trigger] queried[k]@ == queried_line(items@, eager_overflow, answers, k)
                        &&& call_ensures(fits, (&queried[k],), answers[k])
                    } by {
                    lemma_run_depends_on_prefix(
                        items@,
                        eager_overflow,
                        prev_answers,
                        answers,
                        k as nat,
                    );
                    if k < pos - 1 {
                        assert(queried[k] == old_queried[k]);
                        assert(answers[k] == prev_answers[k]);
                    } else {
                        assert(queried[k]@ == asked);
                        assert(asked == prev_state.1.push((pos - 1) as usize));
                        assert(break_run(items@, eager_overflow, answers, k as nat) == break_run(items@, eager_overflow, prev_answers, k as nat));
                        assert(queried_line(items@, eager_overflow, answers, k) == prev_state.1.push((pos - 1) as usize));
                        assert(answers[k] == fit_answer);
                        assert(call_ensures(fits, (&queried[k],), answers[k]));
                    }
                    assert(queried[k]@ == queried_line(items@, eager_overflow, answers, k));
                }
            }
        }
    }
    if !current.is_empty() {
        let finished = current.take();
        proof {
            lemma_lines_view_push(lines@, finished);
        }
        lines.push(finished);
    }
    assert(answered_by(fits, items@, eager_overflow, answers, queried));
    lines
}

/// Breaks one prepared block into lines using cached break opportunities. A single item
/// too wide for the line is emitted as a line of its own at once.
pub fn greedy_line_break<F: Fn(&Vec<usize>) -> bool>(items: &Vec<LineItem>, fits: F) -> (lines: Vec<Vec<usize>>)
    requires
        forall|line: &Vec<usize>| call_requires(fits, (line,)),
    ensures
        exists|answers: Seq<bool>, queried: Seq<Vec<usize>>|
            {
                &&& answered_by(fits, items@, true, answers, queried)
                &&& #[trigger] lines_view(lines@) == broken_lines(items@, true, answers)
                &&& queried.len() == answers.len()
            },
{
    break_items(items, fits, true)
}

/// Breaks a paragraph's items into lines. A single item too wide for the line stays
/// pending until the next item arrives.
pub fn break_paragraph_lines<F: Fn(&Vec<usize>) -> bool>(items: &Vec<LineItem>, fits: F) -> (lines: Vec<Vec<usize>>)
    requires
        forall|line: &Vec<usize>| call_requires(fits, (line,)),
    ensures
        exists|answers: Seq<bool>, queried: Seq<Vec<usize>>|
            {
                &&& answered_by(fits, items@, false, answers, queried)
                &&& #[trigger] lines_view(lines@) == broken_lines(items@, false, answers)
                &&& queried.len() == answers.len()
            },
{
    break_items(items, fits, false)
}

/// Joining the finished lines and the pending line after `n` items gives the positions of
/// the content items among them.
proof fn lemma_run_keeps_content(items: Seq<LineItem>, eager_overflow: bool, answers: Seq<bool>, n: nat)
    requires
        n <= items.len(),
        n <= answers.len(),
    ensures
        break_run(items, eager_overflow, answers, n).0.flatten() + break_run(
            items,
            eager_overflow,
            answers,
            n,
        ).1 == content_positions(items, n),
    decreases n,
{
    if n > 0 {
        let m = (n - 1) as nat;
        lemma_run_keeps_content(items, eager_overflow, answers, m);
        let st = break_run(items, eager_overflow, answers, m);
        let lines = st.0;
        let cur = st.1;
        match items[m as int] {
            LineItem::Break(BreakOpportunity::Mandatory) => {
                lines.lemma_flatten_push(cur);
                assert(lines.push(cur).flatten() + Seq::<usize>::empty() =~= lines.flatten() + cur);
            },
            LineItem::Break(_) => {},
            _ => {
                let cur2 = cur.push(m as usize);
                assert(lines.flatten() + cur2 =~= (lines.flatten() + cur).push(m as usize));
                lines.lemma_flatten_push(cur2);
                assert(lines.push(cur2).flatten() + Seq::<usize>::empty() =~= lines.flatten() + cur2);
                if !(answers[m as int] || cur2.len() == 1) {
                    let b = last_allowed_break(items, cur2);
                    if b is Some && b->0 < cur2.len() {
                        lemma_last_allowed_break_bounds(items, cur2);
                        lines.lemma_flatten_push(cur2.take(b->0));
                        assert(lines.flatten() + cur2.take(b->0) + cur2.skip(b->0) =~= lines.flatten()
                            + cur2);
                    } else {
                        lines.lemma_flatten_push(cur2.drop_last());
                        assert(lines.flatten() + cur2.drop_last() + seq![cur2.last()] =~= lines.flatten()
                            + cur2);
                    }
                }
            },
        }
    }
}

proof fn lemma_last_allowed_break_bounds(items: Seq<LineItem>, line: Seq<usize>)
    ensures
        last_allowed_break(items, line) matches Some(b) ==> 0 < b <= line.len(),
    decreases line.len(),
{
    if line.len() > 0 {
        lemma_last_allowed_break_bounds(items, line.drop_last());
    }
}

/// Greedy breaking loses, repeats and reorders nothing: whatever the fit answers, the lines
/// joined end to end are exactly the content items, in the order they came in.
pub proof fn lemma_lines_keep_content_order(items: Seq<LineItem>, eager_overflow: bool, answers: Seq<bool>)
    requires
        answers.len() == items.len(),
    ensures
        broken_lines(items, eager_overflow, answers).flatten() == content_positions(items, items.len()),
{
    lemma_run_keeps_content(items, eager_overflow, answers, items.len());
    let st = break_run(items, eager_overflow, answers, items.len());
    if st.1.len() > 0 {
        st.0.lemma_flatten_push(st.1);
    } else {
        assert(st.0.flatten() + st.1 =~= st.0.flatten());
    }
}

/// Splitting at mandatory breaks only: the finished lines and the pending line after `n`
/// items when nothing ever overflows.
pub open spec fn mandatory_split(items: Seq<LineItem>, n: nat) -> (Seq<Seq<usize>>, Seq<usize>)
    decreases n,
{
    if n == 0 {
        (Seq::empty(), Seq::empty())
    } else {
        let st = mandatory_split(items, (n - 1) as nat);
        match items[n - 1] {
            LineItem::Break(BreakOpportunity::Mandatory) => (st.0.push(st.1), Seq::empty()),
            LineItem::Break(_) => st,
            _ => (st.0, st.1.push((n - 1) as usize)),
        }
    }
}

/// When every pending line fits, greedy breaking ends lines only at mandatory breaks.
pub proof fn lemma_fitting_lines_break_only_at_mandatory(
    items: Seq<LineItem>,
    eager_overflow: bool,
    answers: Seq<bool>,
    n: nat,
)
    requires
        n <= items.len(),
        answers.len() == items.len(),
        forall|i: int| 0 <= i < answers.len() ==> answers[i],
    ensures
        break_run(items, eager_overflow, answers, n) == mandatory_split(items, n),
    decreases n,
{
    if n > 0 {
        lemma_run_keeps_content(items, eager_overflow, answers, (n - 1) as nat);
        lemma_fitting_lines_break_only_at_mandatory(items, eager_overflow, answers, (n - 1) as nat);
    }
}

/// Every position of `line` lies strictly between `lo` and `hi`.
pub open spec fn within(line: Seq<usize>, lo: int, hi: int) -> bool {
    forall|i: int| 0 <= i < line.len() ==> lo < #[trigger] line[i] < hi
}

/// The line lies wholly before position `k` or wholly after it.
pub open spec fn separated(line: Seq<usize>, k: int) -> bool {
    within(line, -1, k) || within(line, k, usize::MAX + 1)
}

/// The item at `k` is a mandatory break.
pub open spec fn is_mandatory(items: Seq<LineItem>, k: int) -> bool {
    items[k] == LineItem::Break(BreakOpportunity::Mandatory)
}

proof fn lemma_within_pieces(current: Seq<usize>, b: int, lo: int, hi: int)
    requires
        0 <= b <= current.len(),
        within(current, lo, hi),
    ensures
        within(current.take(b), lo, hi),
        within(current.skip(b), lo, hi),
        current.len() > 0 ==> within(current.drop_last(), lo, hi),
        current.len() > 0 ==> within(seq![current.last()], lo, hi),
{
    assert forall|i: int| 0 <= i < current.take(b).len() implies lo < #[trigger] current.take(b)[i] < hi by {
        assert(current.take(b)[i] == current[i]);
    }
    assert forall|i: int| 0 <= i < current.skip(b).len() implies lo < #[trigger] current.skip(b)[i] < hi by {
        assert(current.skip(b)[i] == current[i + b]);
    }
    if current.len() > 0 {
        assert forall|i: int| 0 <= i < current.drop_last().len() implies lo < #[trigger] current.drop_last()[i]
            < hi by {
            assert(current.drop_last()[i] == current[i]);
        }
        assert forall|i: int| 0 <= i < seq![current.last()].len() implies lo < #[trigger] seq![
            current.last(),
        ][i] < hi by {
            assert(seq![current.last()][i] == current[current.len() - 1]);
        }
    }
}

/// The lines that wrapping adds keep every bound that the overfull line keeps.
proof fn lemma_wrap_within(items: Seq<LineItem>, lines: Seq<Seq<usize>>, current: Seq<usize>, lo: int, hi: int)
    requires
        within(current, lo, hi),
    ensures
        wrap_line(items, lines, current).0.len() >= lines.len(),
        forall|j: int| 0 <= j < lines.len() ==> #[trigger] wrap_line(items, lines, current).0[j] == lines[j],
        forall|j: int|
            lines.len() <= j < wrap_line(items, lines, current).0.len() ==> within(
                #[trigger] wrap_line(items, lines, current).0[j],
                lo,
                hi,
            ),
        within(wrap_line(items, lines, current).1, lo, hi),
{
    let b = last_allowed_break(items, current);
    lemma_last_allowed_break_bounds(items, current);
    if b is Some && b->0 < current.len() {
        lemma_within_pieces(current, b->0, lo, hi);
    } else if current.len() > 0 {
        lemma_within_pieces(current, 0, lo, hi);
    }
}

/// What greedy breaking keeps after `n` items: every position is below `n`, and each
/// mandatory break before `n` has every finished line wholly on one side of it and the
/// pending line wholly after it.
pub open spec fn respects_mandatory(items: Seq<LineItem>, state: (Seq<Seq<usize>>, Seq<usize>), n: int) -> bool {
    &&& forall|j: int| 0 <= j < state.0.len() ==> within(#[trigger] state.0[j], -1, n)
    &&& within(state.1, -1, n)
    &&& forall|k: int, j: int|
        0 <= k < n && is_mandatory(items, k) && 0 <= j < state.0.len() ==> #[trigger] separated(
            state.0[j],
            k,
        )
    &&& forall|k: int| 0 <= k < n && #[trigger] is_mandatory(items, k) ==> within(state.1, k, usize::MAX + 1)
}

proof fn lemma_widen(line: Seq<usize>, lo: int, hi: int, lo2: int, hi2: int)
    requires
        within(line, lo, hi),
        lo2 <= lo,
        hi <= hi2,
    ensures
        within(line, lo2, hi2),
{
}

proof fn lemma_run_respects_mandatory(items: Seq<LineItem>, eager_overflow: bool, answers: Seq<bool>, n: nat)
    requires
        n <= items.len(),
        n <= answers.len(),
        items.len() <= usize::MAX,
    ensures
        respects_mandatory(items, break_run(items, eager_overflow, answers, n), n as int),
    decreases n,
{
    if n > 0 {
        let m = (n - 1) as nat;
        lemma_run_respects_mandatory(items, eager_overflow, answers, m);
        let st = break_run(items, eager_overflow, answers, m);
        let next = break_run(items, eager_overflow, answers, n);
        let p = m as int;
        assert(next == break_step(items, eager_overflow, st, p, answers[p]));
        assert forall|j: int| 0 <= j < st.0.len() implies within(#[trigger] st.0[j], -1, n as int) by {
            lemma_widen(st.0[j], -1, p, -1, n as int);
        }
        lemma_widen(st.1, -1, p, -1, n as int);
        match items[p] {
            LineItem::Break(BreakOpportunity::Mandatory) => {
                assert(next.0 == st.0.push(st.1));
                assert forall|j: int| 0 <= j < next.0.len() implies within(#[trigger] next.0[j], -1, n as int) by {
                    if j < st.0.len() {
                        assert(next.0[j] == st.0[j]);
                    }
                }
                assert forall|k: int, j: int|
                    0 <= k < n && is_mandatory(items, k) && 0 <= j < next.0.len() implies #[trigger] separated(
                    next.0[j],
                    k,
                ) by {
                    if k == p {
                        if j < st.0.len() {
                            assert(next.0[j] == st.0[j]);
                        }
                    } else if j < st.0.len() {
                        assert(next.0[j] == st.0[j]);
                        assert(separated(st.0[j], k));
                    } else {
                        assert(next.0[j] == st.1);
                        assert(within(st.1, k, usize::MAX + 1));
                    }
                }
                assert(within(next.1, -1, n as int));
            },
            LineItem::Break(_) => {
                assert(next == st);
                assert(!is_mandatory(items, p));
            },
            _ => {
                let current = st.1.push(p as usize);
                assert(!is_mandatory(items, p));
                assert(within(current, -1, n as int)) by {
                    assert forall|i: int| 0 <= i < current.len() implies -1 < #[trigger] current[i] < n by {
                        if i < st.1.len() {
                            assert(current[i] == st.1[i]);
                        }
                    }
                }
                assert forall|k: int| 0 <= k < p && #[trigger] is_mandatory(items, k) implies within(
                    current,
                    k,
                    usize::MAX + 1,
                ) by {
                    assert forall|i: int| 0 <= i < current.len() implies k < #[trigger] current[i] < usize::MAX
                        + 1 by {
                        if i < st.1.len() {
                            assert(current[i] == st.1[i]);
                        }
                    }
                }
                if answers[p] || current.len() == 1 {
                    if eager_overflow && !answers[p] && current.len() == 1 {
                        assert(next == (st.0.push(current), Seq::<usize>::empty()));
                        assert forall|j: int| 0 <= j < next.0.len() implies within(
                            #[trigger] next.0[j],
                            -1,
                            n as int,
                        ) by {
                            if j < st.0.len() {
                                assert(next.0[j] == st.0[j]);
                            }
                        }
                        assert forall|k: int, j: int|
                            0 <= k < n && is_mandatory(items, k) && 0 <= j < next.0.len() implies #[trigger] separated(
                            next.0[j],
                            k,
                        ) by {
                            if j < st.0.len() {
                                assert(next.0[j] == st.0[j]);
                                assert(separated(st.0[j], k));
                            } else {
                                assert(next.0[j] == current);
                                assert(within(current, k, usize::MAX + 1));
                            }
                        }
                        assert(within(next.1, -1, n as int));
                    } else {
                        assert(next == (st.0, current));
                        assert forall|k: int, j: int|
                            0 <= k < n && is_mandatory(items, k) && 0 <= j < next.0.len() implies #[trigger] separated(
                            next.0[j],
                            k,
                        ) by {
                            assert(separated(st.0[j], k));
                        }
                    }
                } else {
                    assert(next == wrap_line(items, st.0, current));
                    lemma_wrap_within(items, st.0, current, -1, n as int);
                    assert forall|j: int| 0 <= j < next.0.len() implies within(#[trigger] next.0[j], -1, n as int) by {
                        if j < st.0.len() {
                            assert(next.0[j] == st.0[j]);
                        }
                    }
                    assert forall|k: int, j: int|
                        0 <= k < n && is_mandatory(items, k) && 0 <= j < next.0.len() implies #[trigger] separated(
                        next.0[j],
                        k,
                    ) by {
                        lemma_wrap_within(items, st.0, current, k, usize::MAX + 1);
                        if j < st.0.len() {
                            assert(next.0[j] == st.0[j]);
                            assert(separated(st.0[j], k));
                        } else {
                            assert(within(next.0[j], k, usize::MAX + 1));
                        }
                    }
                    assert forall|k: int| 0 <= k < n && #[trigger] is_mandatory(items, k) implies within(
                        next.1,
                        k,
                        usize::MAX + 1,
                    ) by {
                        lemma_wrap_within(items, st.0, current, k, usize::MAX + 1);
                    }
                }
            },
        }
    }
}

/// A mandatory break always ends a line: whatever the fit answers, no line holds items
/// from both sides of a mandatory break.
pub proof fn lemma_mandatory_breaks_separate_lines(items: Seq<LineItem>, eager_overflow: bool, answers: Seq<bool>)
    requires
        answers.len() == items.len(),
        items.len() <= usize::MAX,
    ensures
        forall|k: int, j: int|
            0 <= k < items.len() && is_mandatory(items, k) && 0 <= j < broken_lines(
                items,
                eager_overflow,
                answers,
            ).len() ==> #[trigger] separated(broken_lines(items, eager_overflow, answers)[j], k),
{
    lemma_run_respects_mandatory(items, eager_overflow, answers, items.len());
    let st = break_run(items, eager_overflow, answers, items.len());
    let lines = broken_lines(items, eager_overflow, answers);
    assert forall|k: int, j: int|
        0 <= k < items.len() && is_mandatory(items, k) && 0 <= j < lines.len() implies #[trigger] separated(
        lines[j],
        k,
    ) by {
        if j < st.0.len() {
            assert(lines[j] == st.0[j]);
        } else {
            assert(lines[j] == st.1);
            assert(within(st.1, k, usize::MAX + 1));
        }
    }
}

/// Block breaking (which emits a lone overflowing item at once) and paragraph breaking
/// (which keeps it pending) differ only there: given the same fit answers, they produce the
/// same lines whenever no content item arriving on an empty pending line is refused.
pub proof fn lemma_block_and_paragraph_breaking_agree(items: Seq<LineItem>, answers: Seq<bool>)
    requires
        answers.len() == items.len(),
        forall|k: int|
            0 <= k < items.len() && is_content(items[k]) && #[trigger] break_run(items, true, answers, k as nat).1.len()
                == 0 ==> answers[k],
    ensures
        broken_lines(items, true, answers) == broken_lines(items, false, answers),
{
    lemma_runs_agree(items, answers, items.len());
}

proof fn lemma_runs_agree(items: Seq<LineItem>, answers: Seq<bool>, n: nat)
    requires
        n <= items.len(),
        answers.len() == items.len(),
        forall|k: int|
            0 <= k < items.len() && is_content(items[k]) && #[trigger] break_run(items, true, answers, k as nat).1.len()
                == 0 ==> answers[k],
    ensures
        break_run(items, true, answers, n) == break_run(items, false, answers, n),
    decreases n,
{
    if n > 0 {
        let m = (n - 1) as nat;
        lemma_runs_agree(items, answers, m);
        let st = break_run(items, true, answers, m);
        if is_content(items[m as int]) && st.1.len() == 0 {
            assert(answers[m as int]);
        }
    }
}

} // verus!
