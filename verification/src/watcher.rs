//! Which changed files are re-indexed, and when: changes are collected for a
//! while, and then handled together.
use vstd::hash_map::StringHashMap;
use vstd::prelude::*;

use crate::lists;
use crate::paths;
use crate::paths::is_watched;

verus! {

/// For how many milliseconds changes are collected after the first one.
pub const DEBOUNCE_MS: u64 = 500;

/// What has happened to files.
#[derive(Debug, Clone, Copy, PartialEq, Eq, Structural)]
pub enum ChangeKind {
    Create,
    Modify,
    Remove,
    /// Something that changes no content.
    Other,
}

/// Something that has happened in the vault.
#[derive(Debug, Clone)]
pub struct ChangeEvent {
    pub kind: ChangeKind,
    pub paths: Vec<String>,
}

/// What a [`ChangeEvent`] holds.
pub struct EventModel {
    pub kind: ChangeKind,
    pub paths: Seq<Seq<char>>,
}

impl DeepView for ChangeEvent {
    type V = EventModel;

    open spec fn deep_view(&self) -> EventModel {
        EventModel { kind: self.kind, paths: self.paths.deep_view() }
    }
}

/// The files with those of the paths that lead to notes, each once.
pub open spec fn with_notes(dirty: Seq<Seq<char>>, paths: Seq<Seq<char>>) -> Seq<Seq<char>>
    decreases paths.len(),
{
    if paths.len() == 0 {
        dirty
    } else {
        let before = with_notes(dirty, paths.drop_last());
        let p = paths.last();
        if paths::extension(p) == Some("md"@) && !before.contains(p) {
            before.push(p)
        } else {
            before
        }
    }
}

/// The changed files, with those that an event adds. Only files that come, change
/// or go count.
pub open spec fn with_event(dirty: Seq<Seq<char>>, event: EventModel) -> Seq<Seq<char>> {
    if event.kind == ChangeKind::Other {
        dirty
    } else {
        with_notes(dirty, event.paths)
    }
}

/// What the watcher waits for, or does.
#[derive(Debug, Clone)]
pub enum WatchStep {
    /// It waits for something to happen.
    Wait,
    /// It waits for something to happen, but not longer than this.
    WaitAtMost { ms: u64 },
    /// It handles the changed files.
    Handle { files: Vec<String> },
}

/// What a [`WatchStep`] holds.
pub enum StepModel {
    Wait,
    WaitAtMost { ms: u64 },
    Handle { files: Seq<Seq<char>> },
}

impl DeepView for WatchStep {
    type V = StepModel;

    open spec fn deep_view(&self) -> StepModel {
        match self {
            WatchStep::Wait => StepModel::Wait,
            WatchStep::WaitAtMost { ms } => StepModel::WaitAtMost { ms: *ms },
            WatchStep::Handle { files } => StepModel::Handle { files: files.deep_view() },
        }
    }
}

/// The changes that are being collected.
pub struct Debouncer {
    dirty: Vec<String>,
    /// The paths in `dirty`.
    seen: StringHashMap<bool>,
    /// When to stop collecting, in milliseconds; none if nothing has happened.
    deadline: Option<u64>,
}

/// What a [`Debouncer`] holds.
pub struct DebouncerModel {
    pub dirty: Seq<Seq<char>>,
    pub deadline: Option<u64>,
}

impl View for Debouncer {
    type V = DebouncerModel;

    closed spec fn view(&self) -> DebouncerModel {
        DebouncerModel { dirty: self.dirty.deep_view(), deadline: self.deadline }
    }
}

/// The end of the time for collecting that starts now.
pub open spec fn deadline_after(now: u64) -> u64 {
    if now <= u64::MAX - DEBOUNCE_MS {
        (now + DEBOUNCE_MS) as u64
    } else {
        u64::MAX
    }
}

/// The changes after something has happened; `None` is a failure of the watcher,
/// which adds nothing.
pub open spec fn after_event(d: DebouncerModel, now: u64, event: Option<EventModel>) -> (
    DebouncerModel) {
    DebouncerModel {
        dirty: match event {
            Some(e) => with_event(d.dirty, e),
            None => d.dirty,
        },
        deadline: match d.deadline {
            Some(t) => Some(t),
            None => Some(deadline_after(now)),
        },
    }
}

/// No changes.
pub open spec fn no_changes() -> DebouncerModel {
    DebouncerModel { dirty: seq![], deadline: None }
}

/// What to do once the time for collecting is over.
pub open spec fn closing_step(d: DebouncerModel) -> StepModel {
    if d.dirty.len() == 0 {
        StepModel::Wait
    } else {
        StepModel::Handle { files: d.dirty }
    }
}

/// Whether a map lists the paths.
spec fn lists_paths(seen: Map<Seq<char>, bool>, paths: Seq<Seq<char>>) -> bool {
    forall|p: Seq<char>| #[trigger] seen.contains_key(p) <==> paths.contains(p)
}

impl Debouncer {
    /// `seen` has the paths in `dirty`.
    #[verifier::type_invariant]
    spec fn inv(self) -> bool {
        lists_paths(self.seen@, self@.dirty)
    }

    /// Without changes.
    pub fn new() -> (r: Debouncer)
        ensures
            r@ == no_changes(),
    {
        let dirty: Vec<String> = Vec::new();
        assert(dirty.deep_view() =~= seq![]);
        Debouncer { dirty, seen: StringHashMap::new(), deadline: None }
    }

    /// Collects the notes that an event is about.
    pub fn collect_dirty(&mut self, event: &ChangeEvent)
        ensures
            final(self)@ == (DebouncerModel {
                dirty: with_event(old(self)@.dirty, event.deep_view()),
                ..old(self)@
            }),
    {
        if event.kind == ChangeKind::Other {
            return ;
        }
        let ghost all = event.paths.deep_view();
        let ghost first = self@.dirty;
        let mut taken = Debouncer::new();
        std::mem::swap(self, &mut taken);
        proof {
            use_type_invariant(&taken);
        }
        let mut dirty = taken.dirty;
        let mut seen = taken.seen;
        let mut i: usize = 0;
        assert(with_notes(first, all.take(0)) == first);
        while i < event.paths.len()
            invariant
                i <= event.paths@.len(),
                all == event.paths.deep_view(),
                lists_paths(seen@, dirty.deep_view()),
                dirty.deep_view() == with_notes(first, all.take(i as int)),
            decreases event.paths@.len() - i,
        {
            let ghost had = dirty.deep_view();
            let ghost had_seen = seen@;
            proof {
                assert(all.take(i + 1).drop_last() =~= all.take(i as int));
                assert(all.take(i + 1).last() == event.paths@[i as int]@);
            }
            let path = &event.paths[i];
            if is_watched(path.as_str()) && !seen.contains_key(path.as_str()) {
                seen.insert(path.clone(), true);
                dirty.push(path.clone());
                proof {
                    let now = dirty.deep_view();
                    assert(now =~= had.push(path@));
                    lists::lemma_push_contains(had, path@);
                    assert forall|p: Seq<char>|
                        #[trigger] seen@.contains_key(p) <==> now.contains(p) by {
                        assert(had_seen.contains_key(p) <==> had.contains(p));
                    }
                }
            }
            i = i + 1;
        }
        assert(all.take(i as int) =~= all);
        *self = Debouncer { dirty, seen, deadline: taken.deadline };
    }

    /// Something has happened; `None` if the watcher has failed. The first time
    /// starts the time for collecting.
    pub fn received(&mut self, now: u64, event: &Option<ChangeEvent>)
        ensures
            final(self)@ == after_event(old(self)@, now, event.deep_view()),
    {
        if let Some(e) = event {
            self.collect_dirty(e);
        }
        if self.deadline.is_none() {
            let deadline: u64 = if now <= u64::MAX - DEBOUNCE_MS {
                now + DEBOUNCE_MS
            } else {
                u64::MAX
            };
            proof {
                use_type_invariant(&*self);
            }
            self.deadline = Some(deadline);
        }
    }

    /// Stops collecting: the changes are handled, if there are any, and collecting
    /// begins anew.
    pub fn close(&mut self) -> (r: WatchStep)
        ensures
            final(self)@ == no_changes(),
            r.deep_view() == closing_step(old(self)@),
    {
        let mut fresh = Debouncer::new();
        std::mem::swap(self, &mut fresh);
        assert(fresh@.dirty.len() == fresh.dirty@.len());
        if fresh.dirty.len() == 0 {
            WatchStep::Wait
        } else {
            WatchStep::Handle { files: fresh.dirty }
        }
    }

    /// What to do now.
    pub fn poll(&mut self, now: u64) -> (r: WatchStep)
        ensures
            match old(self)@.deadline {
                None => final(self)@ == old(self)@ && r.deep_view() == StepModel::Wait,
                Some(t) => if now < t {
                    final(self)@ == old(self)@ && r.deep_view() == (StepModel::WaitAtMost {
                        ms: (t - now) as u64,
                    })
                } else {
                    final(self)@ == no_changes() && r.deep_view() == closing_step(old(self)@)
                },
            },
    {
        match self.deadline {
            None => WatchStep::Wait,
            Some(t) => if now < t {
                WatchStep::WaitAtMost { ms: t - now }
            } else {
                self.close()
            },
        }
    }
}

// ── laws ─────────────────────────────────────────────────────────────────────

/// The changed files after events.
pub open spec fn with_events(events: Seq<EventModel>) -> Seq<Seq<char>>
    decreases events.len(),
{
    if events.len() == 0 {
        seq![]
    } else {
        with_event(with_events(events.drop_last()), events.last())
    }
}

/// Whether an event says that a note has come, changed or gone.
pub open spec fn touches(event: EventModel, path: Seq<char>) -> bool {
    event.kind != ChangeKind::Other && paths::extension(path) == Some("md"@)
        && event.paths.contains(path)
}

/// Whether one of the events says so.
pub open spec fn touched(events: Seq<EventModel>, path: Seq<char>) -> bool {
    exists|i: int| 0 <= i < events.len() && #[trigger] touches(events[i], path)
}

proof fn lemma_with_notes(dirty: Seq<Seq<char>>, paths: Seq<Seq<char>>)
    requires
        dirty.no_duplicates(),
    ensures
        with_notes(dirty, paths).no_duplicates(),
        forall|p: Seq<char>| #[trigger]
            with_notes(dirty, paths).contains(p) <==> dirty.contains(p) || (paths::extension(p)
                == Some("md"@) && paths.contains(p)),
    decreases paths.len(),
{
    if paths.len() > 0 {
        let before = paths.drop_last();
        let last = paths.last();
        lemma_with_notes(dirty, before);
        let a = with_notes(dirty, before);
        let b = with_notes(dirty, paths);
        lists::lemma_last_contains(paths);
        lists::lemma_push_contains(a, last);
        assert forall|p: Seq<char>| #[trigger] b.contains(p) <==> dirty.contains(p) || (
        paths::extension(p) == Some("md"@) && paths.contains(p)) by {
            assert(a.contains(p) <==> dirty.contains(p) || (paths::extension(p) == Some("md"@)
                && before.contains(p)));
            assert(paths.contains(p) <==> before.contains(p) || p == last);
        }
    }
}

/// However many events come in, the files to handle are exactly the notes that
/// one of them says have come, changed or gone, each once.
pub proof fn law_changes_collected_once(events: Seq<EventModel>)
    ensures
        with_events(events).no_duplicates(),
        forall|p: Seq<char>| #[trigger]
            with_events(events).contains(p) <==> touched(events, p),
    decreases events.len(),
{
    if events.len() > 0 {
        let before = events.drop_last();
        let last = events.last();
        law_changes_collected_once(before);
        lemma_with_notes(with_events(before), last.paths);
        assert forall|p: Seq<char>| #[trigger]
            with_events(events).contains(p) <==> touched(events, p) by {
            assert(with_events(before).contains(p) <==> touched(before, p));
            if touched(before, p) {
                let k = choose|k: int| 0 <= k < before.len() && #[trigger] touches(before[k], p);
                assert(touches(events[k], p));
            }
            if touches(last, p) {
                assert(touches(events[events.len() - 1], p));
            }
            if touched(events, p) && !touches(last, p) {
                let k = choose|k: int| 0 <= k < events.len() && #[trigger] touches(events[k], p);
                assert(touches(before[k], p));
            }
        }
    }
}

/// The first event opens a time for collecting of [`DEBOUNCE_MS`]; later events
/// do not put its end off.
pub proof fn law_deadline_is_fixed(
    first: Option<EventModel>,
    now: u64,
    later: Option<EventModel>,
    after: u64,
)
    requires
        now <= u64::MAX - DEBOUNCE_MS,
    ensures
        ({
            let one = after_event(no_changes(), now, first);
            one.deadline == Some((now + DEBOUNCE_MS) as u64) && after_event(
                one,
                after,
                later,
            ).deadline == one.deadline
        }),
{
}

/// An event that changes no content, or a failure of the watcher, adds no file; an
/// event adds the notes that it is about, behind those that are there, each once.
pub proof fn law_one_more_event(d: DebouncerModel, now: u64, e: EventModel, p: Seq<char>)
    requires
        d.dirty.no_duplicates(),
    ensures
        after_event(d, now, None).dirty == d.dirty,
        e.kind == ChangeKind::Other ==> after_event(d, now, Some(e)).dirty == d.dirty,
        e.kind != ChangeKind::Other ==> {
            &&& after_event(d, now, Some(e)).dirty.contains(p) <==> d.dirty.contains(p) || (
            e.paths.contains(p) && paths::extension(p) == Some(seq!['m', 'd']))
            &&& after_event(d, now, Some(e)).dirty.no_duplicates()
            &&& d.dirty.is_prefix_of(after_event(d, now, Some(e)).dirty)
        },
        d.deadline is Some ==> after_event(d, now, Some(e)).deadline == d.deadline,
        d.deadline is None && now <= u64::MAX - 500 ==> after_event(d, now, Some(e)).deadline
            == Some((now + 500) as u64) && after_event(d, now, None).deadline == Some(
            (now + 500) as u64,
        ),
{
    reveal_strlit("md");
    assert("md"@ =~= seq!['m', 'd']);
    lemma_with_notes(d.dirty, e.paths);
    lemma_with_notes_prefix(d.dirty, e.paths);
}

proof fn lemma_with_notes_prefix(dirty: Seq<Seq<char>>, paths: Seq<Seq<char>>)
    ensures
        dirty.is_prefix_of(with_notes(dirty, paths)),
    decreases paths.len(),
{
    if paths.len() > 0 {
        let a = with_notes(dirty, paths.drop_last());
        lemma_with_notes_prefix(dirty, paths.drop_last());
        let b = with_notes(dirty, paths);
        assert(b.take(dirty.len() as int) =~= a.take(dirty.len() as int));
    }
}

/// When the time for collecting is over, all files that were collected are handled,
/// if there are any.
pub proof fn law_closing_step(d: DebouncerModel)
    ensures
        d.dirty.len() == 0 ==> closing_step(d) == StepModel::Wait,
        d.dirty.len() > 0 ==> closing_step(d) == (StepModel::Handle { files: d.dirty }),
{
}

} // verus!
