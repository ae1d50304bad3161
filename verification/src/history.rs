//! Bounded undo/redo stacks.
//!
//! `CropHistory` holds the snapshots of the cropping panel (one per page, plus
//! one for page-structure edits) and of the background panel; `GuideHistory`
//! holds the global guide-line operations of the mask panel, addressed by
//! token so that the mask tool's own stack can undo them in its order.

use vstd::prelude::*;

verus! {

/// At most this many snapshots are kept on an undo stack; the oldest goes first.
pub const CROP_HISTORY_LIMIT: usize = 64;

/// `s` with its oldest element dropped when it exceeds the limit.
pub open spec fn trim_oldest<T>(s: Seq<T>) -> Seq<T> {
    if s.len() > CROP_HISTORY_LIMIT { s.drop_first() } else { s }
}

/// The two stacks of a history, oldest entry first.
pub struct HistoryView<T> {
    pub undo: Seq<T>,
    pub redo: Seq<T>,
}

impl<T> HistoryView<T> {
    pub open spec fn wf(self) -> bool {
        self.undo.len() <= CROP_HISTORY_LIMIT
    }
}

/// Recording a new snapshot: it goes on the undo stack and the redo stack empties.
pub open spec fn push_view<T>(h: HistoryView<T>, snap: T) -> HistoryView<T> {
    HistoryView { undo: trim_oldest(h.undo.push(snap)), redo: Seq::empty() }
}

/// Undo with `current` the state being left: the top of the undo stack comes
/// back and `current` goes on the redo stack; nothing happens on an empty stack.
pub open spec fn undo_view<T>(h: HistoryView<T>, current: T) -> (Option<T>, HistoryView<T>) {
    if h.undo.len() == 0 {
        (None, h)
    } else {
        (Some(h.undo.last()), HistoryView { undo: h.undo.drop_last(), redo: h.redo.push(current) })
    }
}

/// Redo with `current` the state being left: the top of the redo stack comes
/// back and `current` goes on the undo stack; nothing happens on an empty stack.
pub open spec fn redo_view<T>(h: HistoryView<T>, current: T) -> (Option<T>, HistoryView<T>) {
    if h.redo.len() == 0 {
        (None, h)
    } else {
        (Some(h.redo.last()), HistoryView { undo: trim_oldest(h.undo.push(current)), redo: h.redo.drop_last() })
    }
}

/// Undo and redo stacks of snapshots.
pub struct CropHistory<T> {
    undo: Vec<T>,
    redo: Vec<T>,
}

impl<T> CropHistory<T> {
    #[verifier::type_invariant]
    closed spec fn inv(&self) -> bool {
        self.undo@.len() <= CROP_HISTORY_LIMIT
    }
}

impl<T> View for CropHistory<T> {
    type V = HistoryView<T>;

    closed spec fn view(&self) -> HistoryView<T> {
        HistoryView { undo: self.undo@, redo: self.redo@ }
    }
}

impl<T> CropHistory<T> {
    /// Both stacks empty.
    pub fn new() -> (h: Self)
        ensures
            h@.undo == Seq::<T>::empty(),
            h@.redo == Seq::<T>::empty(),
            h@.wf(),
    {
        CropHistory { undo: Vec::new(), redo: Vec::new() }
    }

    pub fn undo_len(&self) -> (n: usize)
        ensures
            n == self@.undo.len(),
    {
        self.undo.len()
    }

    pub fn redo_len(&self) -> (n: usize)
        ensures
            n == self@.redo.len(),
    {
        self.redo.len()
    }

    /// The snapshot that the next undo brings back.
    pub fn peek_undo(&self) -> (r: Option<&T>)
        ensures
            self@.undo.len() == 0 ==> r is None,
            self@.undo.len() > 0 ==> r == Some(&self@.undo.last()),
    {
        if self.undo.len() == 0 {
            None
        } else {
            Some(&self.undo[self.undo.len() - 1])
        }
    }

    /// The snapshot that the next redo brings back.
    pub fn peek_redo(&self) -> (r: Option<&T>)
        ensures
            self@.redo.len() == 0 ==> r is None,
            self@.redo.len() > 0 ==> r == Some(&self@.redo.last()),
    {
        if self.redo.len() == 0 {
            None
        } else {
            Some(&self.redo[self.redo.len() - 1])
        }
    }

    /// Records `snap` (the state before an edit): pushed on the undo stack,
    /// whose oldest entry is dropped past `CROP_HISTORY_LIMIT`; the redo stack empties.
    pub fn push(&mut self, snap: T)
        ensures
            final(self)@ == push_view(old(self)@, snap),
            final(self)@.wf(),
    {
        proof {
            use_type_invariant(&*self);
        }
        let mut undo = Vec::new();
        let mut redo = Vec::new();
        std::mem::swap(&mut undo, &mut self.undo);
        std::mem::swap(&mut redo, &mut self.redo);
        undo.push(snap);
        if undo.len() > CROP_HISTORY_LIMIT {
            undo.remove(0);
        }
        redo.clear();
        proof {
            assert(undo@ =~= trim_oldest(old(self)@.undo.push(snap)));
        }
        self.undo = undo;
        self.redo = redo;
    }

    /// Drops the newest undo snapshot (an edit that was recorded but then
    /// did not happen); returns whether there was one.
    pub fn discard_last(&mut self) -> (dropped: bool)
        ensures
            dropped == (old(self)@.undo.len() > 0),
            final(self)@.undo == (if dropped { old(self)@.undo.drop_last() } else { old(self)@.undo }),
            final(self)@.redo == old(self)@.redo,
            final(self)@.wf(),
    {
        proof {
            use_type_invariant(&*self);
        }
        let mut undo = Vec::new();
        let mut redo = Vec::new();
        std::mem::swap(&mut undo, &mut self.undo);
        std::mem::swap(&mut redo, &mut self.redo);
        let r = undo.pop();
        self.undo = undo;
        self.redo = redo;
        r.is_some()
    }

    /// Undo: `current` is the state being left. Returns the snapshot to restore.
    pub fn undo_step(&mut self, current: T) -> (r: Option<T>)
        ensures
            (r, final(self)@) == undo_view(old(self)@, current),
            final(self)@.wf(),
    {
        proof {
            use_type_invariant(&*self);
        }
        let mut undo = Vec::new();
        let mut redo = Vec::new();
        std::mem::swap(&mut undo, &mut self.undo);
        std::mem::swap(&mut redo, &mut self.redo);
        let r = match undo.pop() {
            Some(prev) => {
                redo.push(current);
                Some(prev)
            },
            None => None,
        };
        self.undo = undo;
        self.redo = redo;
        r
    }

    /// Redo: `current` is the state being left. Returns the snapshot to restore.
    pub fn redo_step(&mut self, current: T) -> (r: Option<T>)
        ensures
            (r, final(self)@) == redo_view(old(self)@, current),
            final(self)@.wf(),
    {
        proof {
            use_type_invariant(&*self);
        }
        let mut undo = Vec::new();
        let mut redo = Vec::new();
        std::mem::swap(&mut undo, &mut self.undo);
        std::mem::swap(&mut redo, &mut self.redo);
        let r = match redo.pop() {
            Some(next) => {
                undo.push(current);
                if undo.len() > CROP_HISTORY_LIMIT {
                    undo.remove(0);
                }
                proof {
                    assert(undo@ =~= trim_oldest(old(self)@.undo.push(current)));
                }
                Some(next)
            },
            None => None,
        };
        self.undo = undo;
        self.redo = redo;
        r
    }
}

/// Every operation keeps at most `CROP_HISTORY_LIMIT` snapshots on the undo stack.
pub proof fn lemma_history_stays_bounded<T>(h: HistoryView<T>, s: T)
    requires
        h.wf(),
    ensures
        push_view(h, s).wf(),
        undo_view(h, s).1.wf(),
        redo_view(h, s).1.wf(),
{
}

/// Recording an edit forgets everything that could have been redone, and the
/// next undo brings back exactly the snapshot just recorded.
pub proof fn lemma_undo_returns_last_push<T>(h: HistoryView<T>, snap: T, current: T)
    requires
        h.wf(),
    ensures
        push_view(h, snap).redo.len() == 0,
        undo_view(push_view(h, snap), current).0 == Some(snap),
        undo_view(push_view(h, snap), current).1.redo == seq![current],
{
    assert(seq![current] =~= Seq::<T>::empty().push(current));
}

/// Undo followed by redo, each given the state it leaves, restores both the
/// state and the history: redo hands back the state undo left, and the stacks
/// are exactly as before.
pub proof fn lemma_redo_undoes_undo<T>(h: HistoryView<T>, current: T)
    requires
        h.wf(),
        h.undo.len() > 0,
    ensures
        ({
            let (prev, h1) = undo_view(h, current);
            let (next, h2) = redo_view(h1, prev->0);
            &&& next == Some(current)
            &&& h2 == h
        }),
{
    let (prev, h1) = undo_view(h, current);
    assert(h1.undo.push(prev->0) =~= h.undo);
    assert(h1.redo.drop_last() =~= h.redo);
}

/// Redo followed by undo restores the state and the history, as long as the
/// undo stack was not full (a full stack drops its oldest snapshot on redo).
pub proof fn lemma_undo_undoes_redo<T>(h: HistoryView<T>, current: T)
    requires
        h.wf(),
        h.redo.len() > 0,
        h.undo.len() < CROP_HISTORY_LIMIT,
    ensures
        ({
            let (next, h1) = redo_view(h, current);
            let (prev, h2) = undo_view(h1, next->0);
            &&& prev == Some(current)
            &&& h2 == h
        }),
{
    let (next, h1) = redo_view(h, current);
    assert(h1.undo.drop_last() =~= h.undo);
    assert(h1.redo.push(next->0) =~= h.redo);
}

}

verus! {

/// One global guide-line operation: the document state before and after it.
pub struct GuideHistEntry<S> {
    pub token: u64,
    pub before: S,
    pub after: S,
    /// The operation changed the stacked geometry, so the preview is redrawn on undo/redo.
    pub refresh_preview: bool,
}

/// Index of the newest entry carrying `token`, or -1.
pub open spec fn last_token_index<S>(s: Seq<GuideHistEntry<S>>, token: u64) -> int
    decreases s.len(),
{
    if s.len() == 0 {
        -1
    } else if s.last().token == token {
        s.len() - 1
    } else {
        last_token_index(s.drop_last(), token)
    }
}

/// The entry an undo or redo works on: the newest with the given token, or
/// the newest of all when no token is given; -1 when there is none.
pub open spec fn pick_index<S>(s: Seq<GuideHistEntry<S>>, token: Option<u64>) -> int {
    match token {
        Some(t) => last_token_index(s, t),
        None => s.len() - 1,
    }
}

pub open spec fn next_token_after(t: u64) -> u64 {
    if t == u64::MAX { 0 } else { (t + 1) as u64 }
}

pub struct GuideHistoryView<S> {
    pub undo: Seq<GuideHistEntry<S>>,
    pub redo: Seq<GuideHistEntry<S>>,
    pub next_token: u64,
}

impl<S> GuideHistoryView<S> {
    pub open spec fn wf(self) -> bool {
        self.undo.len() <= CROP_HISTORY_LIMIT
    }
}

/// Recording an operation under the next token; the redo stack empties.
pub open spec fn guide_commit_view<S>(h: GuideHistoryView<S>, before: S, after: S, refresh: bool) -> (u64, GuideHistoryView<S>) {
    let e = GuideHistEntry { token: h.next_token, before, after, refresh_preview: refresh };
    (h.next_token, GuideHistoryView {
        undo: trim_oldest(h.undo.push(e)),
        redo: Seq::empty(),
        next_token: next_token_after(h.next_token),
    })
}

/// Undo moves the picked entry from the undo stack to the top of the redo stack.
pub open spec fn guide_undo_view<S>(h: GuideHistoryView<S>, token: Option<u64>) -> (bool, GuideHistoryView<S>) {
    let i = pick_index(h.undo, token);
    if i < 0 {
        (false, h)
    } else {
        (true, GuideHistoryView { undo: h.undo.remove(i), redo: h.redo.push(h.undo[i]), next_token: h.next_token })
    }
}

/// Redo moves the picked entry from the redo stack to the top of the undo stack.
pub open spec fn guide_redo_view<S>(h: GuideHistoryView<S>, token: Option<u64>) -> (bool, GuideHistoryView<S>) {
    let i = pick_index(h.redo, token);
    if i < 0 {
        (false, h)
    } else {
        (true, GuideHistoryView {
            undo: trim_oldest(h.undo.push(h.redo[i])),
            redo: h.redo.remove(i),
            next_token: h.next_token,
        })
    }
}

proof fn lemma_last_token_index_bounds<S>(s: Seq<GuideHistEntry<S>>, token: u64)
    ensures
        -1 <= last_token_index(s, token) < s.len(),
        last_token_index(s, token) >= 0 ==> s[last_token_index(s, token)].token == token,
    decreases s.len(),
{
    if s.len() > 0 && s.last().token != token {
        lemma_last_token_index_bounds(s.drop_last(), token);
    }
}

/// Global guide-line operations, undoable by token.
pub struct GuideHistory<S> {
    undo: Vec<GuideHistEntry<S>>,
    redo: Vec<GuideHistEntry<S>>,
    next_token: u64,
}

impl<S> GuideHistory<S> {
    #[verifier::type_invariant]
    closed spec fn inv(&self) -> bool {
        self.undo@.len() <= CROP_HISTORY_LIMIT
    }
}

impl<S> View for GuideHistory<S> {
    type V = GuideHistoryView<S>;

    closed spec fn view(&self) -> GuideHistoryView<S> {
        GuideHistoryView { undo: self.undo@, redo: self.redo@, next_token: self.next_token }
    }
}

fn find_last_token<S>(v: &Vec<GuideHistEntry<S>>, token: Option<u64>) -> (r: Option<usize>)
    ensures
        match r {
            Some(i) => i as int == pick_index(v@, token) && i < v@.len(),
            None => pick_index(v@, token) < 0,
        },
{
    match token {
        None => {
            if v.len() == 0 {
                None
            } else {
                Some(v.len() - 1)
            }
        },
        Some(t) => {
            let mut k: usize = v.len();
            assert(v@.take(v@.len() as int) =~= v@);
            while k > 0
                invariant
                    k <= v@.len(),
                    token == Some(t),
                    last_token_index(v@, t) == last_token_index(v@.take(k as int), t),
                decreases k,
            {
                assert(v@.take(k as int).drop_last() =~= v@.take(k - 1));
                if v[k - 1].token == t {
                    assert(v@.take(k as int).last() == v@[k - 1]);
                    assert(v@.take(k as int).len() == k);
                    assert(last_token_index(v@.take(k as int), t) == k - 1);
                    return Some(k - 1);
                }
                k -= 1;
            }
            None
        },
    }
}

impl<S> GuideHistory<S> {
    /// Empty stacks; the first operation gets token 0.
    pub fn new() -> (h: Self)
        ensures
            h@.undo == Seq::<GuideHistEntry<S>>::empty(),
            h@.redo == Seq::<GuideHistEntry<S>>::empty(),
            h@.next_token == 0,
    {
        GuideHistory { undo: Vec::new(), redo: Vec::new(), next_token: 0 }
    }

    /// Records an operation with the states before and after it; returns its token.
    pub fn commit(&mut self, before: S, after: S, refresh_preview: bool) -> (token: u64)
        ensures
            (token, final(self)@) == guide_commit_view(old(self)@, before, after, refresh_preview),
            final(self)@.wf(),
    {
        proof {
            use_type_invariant(&*self);
        }
        let mut undo = Vec::new();
        let mut redo = Vec::new();
        std::mem::swap(&mut undo, &mut self.undo);
        std::mem::swap(&mut redo, &mut self.redo);
        let token = self.next_token;
        self.next_token = if self.next_token == u64::MAX { 0 } else { self.next_token + 1 };
        undo.push(GuideHistEntry { token, before, after, refresh_preview });
        if undo.len() > CROP_HISTORY_LIMIT {
            undo.remove(0);
        }
        redo.clear();
        proof {
            let e = GuideHistEntry { token, before, after, refresh_preview };
            assert(undo@ =~= trim_oldest(old(self)@.undo.push(e)));
        }
        self.undo = undo;
        self.redo = redo;
        token
    }

    /// Undoes the newest operation with `token` (the newest of all for `None`);
    /// its entry becomes the top of the redo stack. Returns whether one was found.
    pub fn undo(&mut self, token: Option<u64>) -> (found: bool)
        ensures
            (found, final(self)@) == guide_undo_view(old(self)@, token),
            final(self)@.wf(),
    {
        proof {
            use_type_invariant(&*self);
        }
        let mut undo = Vec::new();
        let mut redo = Vec::new();
        std::mem::swap(&mut undo, &mut self.undo);
        std::mem::swap(&mut redo, &mut self.redo);
        let found = match find_last_token(&undo, token) {
            Some(i) => {
                let e = undo.remove(i);
                redo.push(e);
                true
            },
            None => false,
        };
        self.undo = undo;
        self.redo = redo;
        found
    }

    /// Redoes the newest undone operation with `token` (the newest of all for
    /// `None`); its entry becomes the top of the undo stack. Returns whether one was found.
    pub fn redo(&mut self, token: Option<u64>) -> (found: bool)
        ensures
            (found, final(self)@) == guide_redo_view(old(self)@, token),
            final(self)@.wf(),
    {
        proof {
            use_type_invariant(&*self);
        }
        let mut undo = Vec::new();
        let mut redo = Vec::new();
        std::mem::swap(&mut undo, &mut self.undo);
        std::mem::swap(&mut redo, &mut self.redo);
        let found = match find_last_token(&redo, token) {
            Some(i) => {
                let e = redo.remove(i);
                undo.push(e);
                if undo.len() > CROP_HISTORY_LIMIT {
                    undo.remove(0);
                }
                proof {
                    assert(undo@ =~= trim_oldest(old(self)@.undo.push(old(self)@.redo[i as int])));
                }
                true
            },
            None => false,
        };
        self.undo = undo;
        self.redo = redo;
        found
    }

    /// The entry the last undo moved (top of the redo stack).
    pub fn last_undone(&self) -> (r: Option<&GuideHistEntry<S>>)
        ensures
            self@.redo.len() == 0 ==> r is None,
            self@.redo.len() > 0 ==> r == Some(&self@.redo.last()),
    {
        if self.redo.len() == 0 {
            None
        } else {
            Some(&self.redo[self.redo.len() - 1])
        }
    }

    /// The entry the last commit or redo put on top of the undo stack.
    pub fn last_done(&self) -> (r: Option<&GuideHistEntry<S>>)
        ensures
            self@.undo.len() == 0 ==> r is None,
            self@.undo.len() > 0 ==> r == Some(&self@.undo.last()),
    {
        if self.undo.len() == 0 {
            None
        } else {
            Some(&self.undo[self.undo.len() - 1])
        }
    }
}

/// Undoing by the token a commit returned finds exactly that operation, and
/// leaves the undo stack as it was before the commit (when it was not full).
pub proof fn lemma_guide_undo_by_token<S>(h: GuideHistoryView<S>, before: S, after: S, refresh: bool)
    requires
        h.wf(),
        h.undo.len() < CROP_HISTORY_LIMIT,
    ensures
        ({
            let (tok, h1) = guide_commit_view(h, before, after, refresh);
            let (found, h2) = guide_undo_view(h1, Some(tok));
            &&& found
            &&& h2.redo == seq![GuideHistEntry { token: tok, before, after, refresh_preview: refresh }]
            &&& h2.undo == h.undo
        }),
{
    let (tok, h1) = guide_commit_view(h, before, after, refresh);
    assert(h1.undo.last().token == tok);
    assert(h1.undo.remove(h1.undo.len() - 1) =~= h.undo);
    let e = GuideHistEntry { token: tok, before, after, refresh_preview: refresh };
    assert(Seq::<GuideHistEntry<S>>::empty().push(e) =~= seq![e]);
}

/// Undo then redo of the newest operation (no token given) restores both stacks.
pub proof fn lemma_guide_redo_undoes_undo<S>(h: GuideHistoryView<S>)
    requires
        h.wf(),
        h.undo.len() > 0,
    ensures
        ({
            let (found, h1) = guide_undo_view(h, None);
            let (found2, h2) = guide_redo_view(h1, None);
            &&& found && found2
            &&& h2 == h
        }),
{
    let (found, h1) = guide_undo_view(h, None);
    let i = h.undo.len() - 1;
    assert(h1.undo.push(h.undo[i]) =~= h.undo);
    assert(h1.redo.remove(h1.redo.len() - 1) =~= h.redo);
}

/// Undo then redo by the same token: the operation is on top of the undo stack
/// again and the redo stack is as before.
pub proof fn lemma_guide_redo_by_token<S>(h: GuideHistoryView<S>, token: u64)
    requires
        h.wf(),
        last_token_index(h.undo, token) >= 0,
    ensures
        ({
            let i = last_token_index(h.undo, token);
            let (found, h1) = guide_undo_view(h, Some(token));
            let (found2, h2) = guide_redo_view(h1, Some(token));
            &&& found && found2
            &&& h2.redo == h.redo
            &&& h2.undo.last() == h.undo[i]
        }),
{
    lemma_last_token_index_bounds(h.undo, token);
    let i = last_token_index(h.undo, token);
    let (found, h1) = guide_undo_view(h, Some(token));
    assert(h1.redo.last().token == token);
    assert(h1.redo.remove(h1.redo.len() - 1) =~= h.redo);
}

}
