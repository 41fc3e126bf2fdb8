//! Requests from a script: each is answered in an envelope, and a batch is
//! applied in order and answered in order.

use vstd::prelude::*;

use crate::app::{reply_view, App, AppView, Request, RequestView, Response, ResponseView};
use crate::app_laws::{lemma_dispatch_keeps, lemma_noted_first};

verus! {

/// An answer with the name that its request went by.
#[derive(Debug)]
pub struct Envelope {
    pub id: String,
    pub outcome: Result<Response, String>,
}

/// A request that was read, or what is wrong with it.
pub type Decoded = Result<Request, String>;

/// A request that was read, its texts as characters.
pub type DecodedView = Result<RequestView, Seq<char>>;

/// The view of a request that was read.
pub open spec fn decoded_view(req: Decoded) -> DecodedView {
    match req {
        Ok(q) => Ok(q@),
        Err(e) => Err(e@),
    }
}

/// What a request that was read comes to: one that is wrong is answered
/// with what is wrong, and changes nothing.
pub open spec fn answered(a: AppView, req: DecodedView) -> (
    AppView,
    Result<ResponseView, Seq<char>>,
) {
    match req {
        Ok(q) => a.dispatched(q),
        Err(e) => (a, Err(e)),
    }
}

/// The state after the first `k` requests of a batch.
pub open spec fn after_batch(a: AppView, reqs: Seq<DecodedView>, k: int) -> AppView
    decreases k,
{
    if k <= 0 {
        a
    } else {
        answered(after_batch(a, reqs, k - 1), reqs[k - 1]).0
    }
}

/// The views of a batch of requests.
pub open spec fn decoded_views(reqs: Seq<(String, Decoded)>) -> Seq<DecodedView> {
    Seq::new(reqs.len(), |i: int| decoded_view(reqs[i].1))
}

impl AppView {
    /// Whether no board in the editor, shown or on its stacks, has a counter
    /// past `m`.
    pub open spec fn ids_below(self, m: int) -> bool {
        &&& self.canvas.next_id <= m
        &&& forall|i: int| 0 <= i < self.undo.len() ==> (#[trigger] self.undo[i]).next_id <= m
        &&& forall|i: int| 0 <= i < self.redo.len() ==> (#[trigger] self.redo[i]).next_id <= m
    }
}

proof fn lemma_ids_grow(a: AppView, req: RequestView, m: int)
    requires
        a.ids_below(m),
        m < u64::MAX,
    ensures
        a.dispatched(req).0.ids_below(m + 1),
{
    reveal(AppView::applied);
    let n = a.noted();
    let full = a.undo.push(a.canvas);
    assert forall|i: int| 0 <= i < n.undo.len() implies (#[trigger] n.undo[i]).next_id <= m by {
        if full.len() > crate::app::UNDO_LIMIT {
            assert(n.undo[i] == full[i + 1]);
            if i + 1 < a.undo.len() {
                assert(full[i + 1] == a.undo[i + 1]);
            }
        } else if i < a.undo.len() {
            assert(n.undo[i] == a.undo[i]);
        }
    }
    if a.undo.len() > 0 {
        assert(a.undo[a.undo.len() - 1] == a.undo.last());
    }
    if a.redo.len() > 0 {
        assert(a.redo[a.redo.len() - 1] == a.redo.last());
    }
    let b = a.dispatched(req).0;
    if req.changes() {
        lemma_noted_first(a, req);
        lemma_dispatch_keeps(a, req);
        if a.applied(req).1 is Ok {
            assert(b.undo == n.undo && b.redo == n.redo);
        } else {
            assert(b == a);
        }
    } else {
        assert forall|i: int| 0 <= i < b.undo.len() implies (#[trigger] b.undo[i]).next_id
            <= m by {
            if i < a.undo.len() {
                assert(a.undo[i] == a.undo[i]);
            }
        }
        assert forall|i: int| 0 <= i < b.redo.len() implies (#[trigger] b.redo[i]).next_id
            <= m by {
            if i < a.redo.len() {
                assert(a.redo[i] == a.redo[i]);
            }
        }
    }
}

impl App {
    /// Whether a batch of `n` requests can be made, whatever they are: the
    /// counters have an id left for each.
    pub fn can_take_batch(&self, n: usize) -> (r: bool)
        ensures
            r == self@.ids_below(u64::MAX - n),
    {
        let top: u64 = u64::MAX - n as u64;
        let mut low: bool = self.canvas.next_id <= top;
        let mut i: usize = 0;
        while i < self.undo_stack.len()
            invariant
                i <= self.undo_stack@.len(),
                low == (self@.canvas.next_id <= top && forall|k: int|
                    0 <= k < i ==> (#[trigger] self@.undo[k]).next_id <= top),
            decreases self.undo_stack@.len() - i,
        {
            proof {
                assert(self@.undo[i as int] == self.undo_stack@[i as int]@);
            }
            low = low && self.undo_stack[i].next_id <= top;
            i += 1;
        }
        let mut j: usize = 0;
        while j < self.redo_stack.len()
            invariant
                j <= self.redo_stack@.len(),
                low == (self@.canvas.next_id <= top && (forall|k: int|
                    0 <= k < self@.undo.len() ==> (#[trigger] self@.undo[k]).next_id <= top) && (
                forall|k: int| 0 <= k < j ==> (#[trigger] self@.redo[k]).next_id <= top)),
            decreases self.redo_stack@.len() - j,
        {
            proof {
                assert(self@.redo[j as int] == self.redo_stack@[j as int]@);
            }
            low = low && self.redo_stack[j].next_id <= top;
            j += 1;
        }
        low
    }

    /// Whether a request can be made: the counter has an id left for one
    /// that needs it.
    pub fn can_dispatch(&self, req: &Request) -> (r: bool)
        ensures
            r == (req@.needs_id() ==> self.canvas.next_id < u64::MAX),
    {
        match req {
            Request::Place { .. } => self.canvas.next_id < u64::MAX,
            Request::Connect { .. } => self.canvas.next_id < u64::MAX,
            _ => true,
        }
    }
}

/// Applies one request that was read. `kind` is the name that the request
/// went by, so that an answer can be matched back up.
pub fn run_one(app: &mut App, kind: String, req: Decoded) -> (r: Envelope)
    requires
        req matches Ok(q) ==> (q@.needs_id() ==> old(app).canvas.next_id < u64::MAX),
    ensures
        r.id@ == kind@,
        (final(app)@, reply_view(r.outcome)) == answered(old(app)@, decoded_view(req)),
        final(app).maps_wf() == old(app).maps_wf(),
        old(app).wf() ==> final(app).wf(),
{
    match req {
        Ok(q) => Envelope { id: kind, outcome: app.dispatch(q) },
        Err(e) => Envelope { id: kind, outcome: Err(e) },
    }
}

/// Applies a batch of requests in order.
pub fn run_batch(app: &mut App, reqs: Vec<(String, Decoded)>) -> (r: Vec<Envelope>)
    requires
        old(app)@.ids_below(u64::MAX - reqs@.len()),
    ensures
        r@.len() == reqs@.len(),
        forall|i: int|
            0 <= i < r@.len() ==> (#[trigger] r@[i]).id@ == reqs@[i].0@ && reply_view(
                r@[i].outcome,
            ) == answered(
                after_batch(old(app)@, decoded_views(reqs@), i),
                decoded_views(reqs@)[i],
            ).1,
        final(app)@ == after_batch(old(app)@, decoded_views(reqs@), reqs@.len() as int),
        final(app).maps_wf() == old(app).maps_wf(),
        old(app).wf() ==> final(app).wf(),
{
    let ghost all = reqs@;
    let ghost want = decoded_views(reqs@);
    let mut reqs = reqs;
    let mut out: Vec<Envelope> = Vec::new();
    while reqs.len() > 0
        invariant
            out@.len() + reqs@.len() == all.len(),
            want == decoded_views(all),
            forall|k: int| 0 <= k < reqs@.len() ==> #[trigger] reqs@[k] == all[k + out@.len()],
            forall|i: int|
                0 <= i < out@.len() ==> (#[trigger] out@[i]).id@ == all[i].0@ && reply_view(
                    out@[i].outcome,
                ) == answered(after_batch(old(app)@, want, i), want[i]).1,
            app@ == after_batch(old(app)@, want, out@.len() as int),
            app@.ids_below(u64::MAX - reqs@.len()),
            app.maps_wf() == old(app).maps_wf(),
            old(app).wf() ==> app.wf(),
        decreases reqs@.len(),
    {
        let ghost before = reqs@;
        let ghost done = out@;
        let ghost state = app@;
        let (kind, req) = reqs.remove(0);
        proof {
            assert(before[0] == all[done.len() as int]);
            assert(want[done.len() as int] == decoded_view(req));
            if let Ok(q) = want[done.len() as int] {
                lemma_ids_grow(state, q, u64::MAX - before.len());
            }
        }
        let answer: Envelope = run_one(app, kind, req);
        out.push(answer);
        proof {
            assert forall|k: int| 0 <= k < reqs@.len() implies #[trigger] reqs@[k] == all[k
                + out@.len()] by {
                assert(reqs@[k] == before[k + 1]);
            }
            assert(app@ == answered(state, want[done.len() as int]).0);
        }
    }
    out
}

/// Nothing is written to the board's file until a save says so: no other
/// request asks for it.
pub proof fn lemma_only_save_asks_for_writing(a: AppView, req: RequestView)
    requires
        !(req is Save),
    ensures
        a.dispatched(req).0.wants_save == a.wants_save,
{
    reveal(AppView::applied);
}

/// A batch of queries leaves the board as it was.
pub proof fn lemma_batch_of_queries_leaves_the_board(
    a: AppView,
    reqs: Seq<DecodedView>,
    k: int,
)
    requires
        0 <= k <= reqs.len(),
        forall|i: int|
            0 <= i < reqs.len() ==> (#[trigger] reqs[i] matches Ok(q) ==> q is State || q is Select),
    ensures
        after_batch(a, reqs, k).canvas == a.canvas,
        after_batch(a, reqs, k).wants_save == a.wants_save,
        after_batch(a, reqs, k).pending == a.pending,
    decreases k,
{
    reveal(AppView::applied);
    if k > 0 {
        lemma_batch_of_queries_leaves_the_board(a, reqs, k - 1);
        assert(reqs[k - 1] == reqs[k - 1]);
    }
}

/// A batch is one request after the other: two batches in turn are the batch
/// of both, and a request that could not be read takes nothing from those
/// around it.
pub proof fn lemma_batches_in_turn(a: AppView, first: Seq<DecodedView>, then: Seq<DecodedView>)
    ensures
        after_batch(a, first + then, (first.len() + then.len()) as int) == after_batch(
            after_batch(a, first, first.len() as int),
            then,
            then.len() as int,
        ),
        forall|q: RequestView| #[trigger]
            after_batch(a, seq![Ok::<RequestView, Seq<char>>(q)], 1) == a.dispatched(q).0,
        forall|e: Seq<char>| #[trigger]
            after_batch(a, seq![Err::<RequestView, Seq<char>>(e)], 1) == a,
    decreases then.len(),
{
    reveal_with_fuel(after_batch, 2);
    if then.len() == 0 {
        assert(first + then =~= first);
    } else {
        let n = then.len() - 1;
        lemma_batches_in_turn(a, first, then.take(n));
        let m = (first.len() + n) as int;
        lemma_batch_prefix(a, first + then, first + then.take(n), m);
        lemma_batch_prefix(
            after_batch(a, first, first.len() as int),
            then,
            then.take(n),
            n as int,
        );
        assert((first + then)[m] == then[n as int]);
    }
}

proof fn lemma_batch_prefix(a: AppView, reqs: Seq<DecodedView>, same: Seq<DecodedView>, k: int)
    requires
        0 <= k <= reqs.len(),
        k <= same.len(),
        forall|i: int| 0 <= i < k ==> reqs[i] == #[trigger] same[i],
    ensures
        after_batch(a, reqs, k) == after_batch(a, same, k),
    decreases k,
{
    if k > 0 {
        lemma_batch_prefix(a, reqs, same, k - 1);
        assert(reqs[k - 1] == same[k - 1]);
    }
}

} // verus!
