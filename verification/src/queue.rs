//! The speaking queue: duplicate texts within two seconds collapse, and
//! distinct alerts are paced half a second apart.
//!
//! Times are milliseconds of a clock that does not run backwards.
use vstd::prelude::*;

use crate::text::same_text;
use crate::triggers::VoicePriority;
use crate::voice::{turn, turn_of, Turn};

verus! {

/// How long a text is not said again.
pub const COLLAPSE_MS: u64 = 2000;

/// How far apart alerts are said.
pub const PACE_MS: u64 = 500;

/// An alert that waits for its turn.
#[derive(Debug)]
pub struct Alert {
    pub text: String,
    pub priority: VoicePriority,
    /// an audition: said though the client is muted
    pub forced: bool,
}

/// An [`Alert`] as contracts see it.
#[verifier::ext_equal]
pub struct AlertView {
    pub text: Seq<char>,
    pub priority: VoicePriority,
    pub forced: bool,
}

impl DeepView for Alert {
    type V = AlertView;

    open spec fn deep_view(&self) -> AlertView {
        AlertView { text: self.text@, priority: self.priority, forced: self.forced }
    }
}

/// The alerts that wait to be said.
#[derive(Debug)]
pub struct SpeakingQueue {
    /// first come, first
    pub waiting: Vec<Alert>,
    /// what was offered lately, and when
    pub heard: Vec<(String, u64)>,
    /// when an alert was last handed out
    pub last: Option<u64>,
}

/// A [`SpeakingQueue`] as contracts see it.
#[verifier::ext_equal]
pub struct QueueView {
    pub waiting: Seq<AlertView>,
    pub heard: Seq<(Seq<char>, u64)>,
    pub last: Option<u64>,
}

impl View for SpeakingQueue {
    type V = QueueView;

    open spec fn view(&self) -> QueueView {
        QueueView {
            waiting: self.waiting.deep_view(),
            heard: self.heard.deep_view(),
            last: self.last,
        }
    }
}

/// Is `now` less than `span` after `at`?
pub open spec fn within(at: u64, now: u64, span: u64) -> bool {
    now < at + span
}

fn is_within(at: u64, now: u64, span: u64) -> (r: bool)
    ensures
        r == within(at, now, span),
{
    now < at || now - at < span
}

/// What was offered so lately that it still counts.
pub open spec fn fresh(heard: Seq<(Seq<char>, u64)>, now: u64) -> Seq<(Seq<char>, u64)> {
    heard.filter(|t: (Seq<char>, u64)| within(t.1, now, COLLAPSE_MS))
}

/// Does an offer count? Not while muted, and not without words.
pub open spec fn counts(text: Seq<char>, muted: bool) -> bool {
    !muted && text.len() > 0
}

impl QueueView {
    /// Was this text offered so lately that another one collapses into it?
    pub open spec fn collapses(self, text: Seq<char>, now: u64) -> bool {
        exists|i: int|
            0 <= i < self.heard.len() && (#[trigger] self.heard[i]).0 == text && within(
                self.heard[i].1,
                now,
                COLLAPSE_MS,
            )
    }

    /// Is an alert taken in? Only if the offer counts, if it does not give way
    /// to what is being said, and if it does not collapse.
    pub open spec fn takes(
        self,
        text: Seq<char>,
        p: VoicePriority,
        now: u64,
        busy: bool,
        muted: bool,
    ) -> bool {
        &&& counts(text, muted)
        &&& !(turn_of(busy, p) is GiveWay)
        &&& !self.collapses(text, now)
    }

    /// The queue once an alert was offered. An offer that counts is
    /// remembered, whether or not it is taken in.
    pub open spec fn offered(
        self,
        text: Seq<char>,
        p: VoicePriority,
        now: u64,
        busy: bool,
        muted: bool,
    ) -> QueueView {
        if counts(text, muted) {
            QueueView {
                waiting: if self.takes(text, p, now, busy, muted) {
                    self.waiting.push(AlertView { text, priority: p, forced: false })
                } else {
                    self.waiting
                },
                heard: fresh(self.heard, now).push((text, now)),
                ..self
            }
        } else {
            self
        }
    }

    /// Was an alert handed out less than half a second ago?
    pub open spec fn paced(self, now: u64) -> bool {
        match self.last {
            Some(at) => within(at, now, PACE_MS),
            None => false,
        }
    }

    /// Which waiting alert has its turn: the first one that may speak at
    /// once, unless the last one was said too lately.
    pub open spec fn turn_at(self, now: u64, busy: bool) -> Option<int> {
        if self.paced(now) {
            None
        } else {
            first_ready(self.waiting, busy, 0)
        }
    }

    /// The queue with an alert put back.
    pub open spec fn with_back(self, a: AlertView) -> QueueView {
        QueueView { waiting: self.waiting.insert(0, a), ..self }
    }

    /// The queue once the alert at `i` was handed out.
    pub open spec fn without(self, i: int, now: u64) -> QueueView {
        QueueView { waiting: self.waiting.remove(i), last: Some(now), ..self }
    }
}

/// May the alert speak at once?
pub open spec fn ready(a: AlertView, busy: bool) -> bool {
    turn_of(busy, a.priority) is Now || turn_of(busy, a.priority) is Interrupt
}

/// The first alert, at `from` or later, that may speak at once.
pub open spec fn first_ready(waiting: Seq<AlertView>, busy: bool, from: int) -> Option<int>
    decreases waiting.len() - from,
{
    if from < 0 || from >= waiting.len() {
        None
    } else if ready(waiting[from], busy) {
        Some(from)
    } else {
        first_ready(waiting, busy, from + 1)
    }
}

impl SpeakingQueue {
    /// Nothing waits, and nothing was said yet.
    pub fn new() -> (r: Self)
        ensures
            r@.waiting.len() == 0,
            r@.heard.len() == 0,
            r@.last is None,
    {
        SpeakingQueue { waiting: Vec::new(), heard: Vec::new(), last: None }
    }

    /// Was this text offered so lately that another one collapses into it?
    fn has_lately(&self, text: &str, now: u64) -> (r: bool)
        ensures
            r == self@.collapses(text@, now),
    {
        let mut i: usize = 0;
        while i < self.heard.len()
            invariant
                i <= self.heard@.len(),
                forall|j: int|
                    0 <= j < i ==> !((#[trigger] self@.heard[j]).0 == text@ && within(
                        self@.heard[j].1,
                        now,
                        COLLAPSE_MS,
                    )),
            decreases self.heard@.len() - i,
        {
            assert(self@.heard[i as int] == self.heard@[i as int].deep_view());
            if same_text(self.heard[i].0.as_str(), text) && is_within(
                self.heard[i].1,
                now,
                COLLAPSE_MS,
            ) {
                return true;
            }
            i += 1;
        }
        false
    }

    /// Offers an alert to be said. Says whether it was taken in.
    pub fn offer(
        &mut self,
        text: &str,
        priority: VoicePriority,
        now: u64,
        busy: bool,
        muted: bool,
    ) -> (r: bool)
        ensures
            r == old(self)@.takes(text@, priority, now, busy, muted),
            final(self)@ == old(self)@.offered(text@, priority, now, busy, muted),
    {
        if muted || text.is_empty() {
            return false;
        }
        let gives_way: bool = match turn(busy, priority) {
            Turn::GiveWay => true,
            _ => false,
        };
        let taken: bool = !gives_way && !self.has_lately(text, now);
        let ghost was = self@;
        let kept = still_fresh(&self.heard, now);
        self.heard = kept;
        self.heard.push((text.to_owned(), now));
        assert(self@.heard =~= fresh(was.heard, now).push((text@, now)));
        if taken {
            self.waiting.push(Alert { text: text.to_owned(), priority, forced: false });
            assert(self@.waiting =~= was.waiting.push(
                AlertView { text: text@, priority, forced: false },
            ));
        }
        taken
    }

    /// The alert to say now, if one has its turn.
    pub fn next(&mut self, now: u64, busy: bool) -> (r: Option<Alert>)
        ensures
            match old(self)@.turn_at(now, busy) {
                Some(i) => r is Some && r->0.deep_view() == old(self)@.waiting[i] && final(self)@
                    == old(self)@.without(i, now),
                None => r is None && final(self)@ == old(self)@,
            },
    {
        match self.last {
            Some(at) => {
                if is_within(at, now, PACE_MS) {
                    return None;
                }
            },
            None => {},
        }
        let ghost was = self@;
        let mut i: usize = 0;
        while i < self.waiting.len()
            invariant
                i <= self.waiting@.len(),
                self@ == was,
                was == old(self)@,
                !was.paced(now),
                first_ready(was.waiting, busy, 0) == first_ready(was.waiting, busy, i as int),
            decreases self.waiting@.len() - i,
        {
            assert(was.waiting[i as int] == self.waiting@[i as int].deep_view());
            match turn(busy, self.waiting[i].priority) {
                Turn::Now | Turn::Interrupt => {
                    let a = self.waiting.remove(i);
                    self.last = Some(now);
                    assert(self@.waiting =~= was.waiting.remove(i as int));
                    return Some(a);
                },
                _ => {},
            }
            i += 1;
        }
        None
    }

    /// Lets an alert wait, ahead of the others, whose turn came while
    /// something else was being said. It was not said, so it does not collapse
    /// with itself.
    pub fn put_back(&mut self, alert: Alert)
        ensures
            final(self)@ == old(self)@.with_back(alert.deep_view()),
    {
        let ghost was = self@;
        let ghost a = alert.deep_view();
        self.waiting.insert(0, alert);
        assert(self@.waiting =~= was.waiting.insert(0, a));
    }
}

/// Forgets what was offered too long ago to count.
fn still_fresh(heard: &Vec<(String, u64)>, now: u64) -> (r: Vec<(String, u64)>)
    ensures
        r.deep_view() == fresh(heard.deep_view(), now),
{
    let mut r: Vec<(String, u64)> = Vec::new();
    let ghost all = heard.deep_view();
    let ghost keep = |t: (Seq<char>, u64)| within(t.1, now, COLLAPSE_MS);
    let mut i: usize = 0;
    proof {
        reveal(Seq::filter);
        assert(r.deep_view() =~= fresh(all.take(0), now));
    }
    while i < heard.len()
        invariant
            i <= heard@.len(),
            all == heard.deep_view(),
            keep == (|t: (Seq<char>, u64)| within(t.1, now, COLLAPSE_MS)),
            r.deep_view() == fresh(all.take(i as int), now),
        decreases heard@.len() - i,
    {
        let ghost was = r.deep_view();
        proof {
            reveal(Seq::filter);
            assert(all.take(i + 1).drop_last() =~= all.take(i as int));
            assert(all.take(i + 1).last() == heard@[i as int].deep_view());
        }
        if is_within(heard[i].1, now, COLLAPSE_MS) {
            let e: (String, u64) = (heard[i].0.clone(), heard[i].1);
            let ghost v = e.deep_view();
            r.push(e);
            assert(r.deep_view() =~= was.push(v));
        }
        i += 1;
    }
    assert(all.take(all.len() as int) =~= all);
    r
}

// ---------------------------------------------------------------------------
// Laws
// ---------------------------------------------------------------------------
/// A text that is offered collapses with every like text offered in the two
/// seconds after, whatever its priority, and whether or not it was taken in
/// itself.
pub proof fn law_duplicates_collapse(
    q: QueueView,
    text: Seq<char>,
    p: VoicePriority,
    at: u64,
    busy: bool,
    now: u64,
)
    requires
        text.len() > 0,
        at <= now < at + COLLAPSE_MS,
    ensures
        q.offered(text, p, at, busy, false).collapses(text, now),
{
    let after = q.offered(text, p, at, busy, false);
    let n = after.heard.len() - 1;
    assert(after.heard[n] == (text, at));
}

/// Distinct texts do not collapse: one that was not offered within the last
/// two seconds is taken in, unless the client is muted or it gives way.
pub proof fn law_distinct_texts_are_taken(
    q: QueueView,
    text: Seq<char>,
    p: VoicePriority,
    now: u64,
    busy: bool,
)
    requires
        text.len() > 0,
        forall|k: int|
            0 <= k < q.heard.len() ==> (#[trigger] q.heard[k]).0 != text || q.heard[k].1
                + COLLAPSE_MS <= now,
        !busy || !(p is Ambient),
    ensures
        q.takes(text, p, now, busy, false),
{
}

/// What can happen to a queue.
pub enum Happening {
    Offer { text: Seq<char>, priority: VoicePriority, busy: bool, muted: bool },
    Next { busy: bool },
    PutBack { alert: AlertView },
}

/// What happens to a queue, and when.
pub struct QueueEvent {
    pub now: u64,
    pub what: Happening,
}

/// The queue after an event.
pub open spec fn after(q: QueueView, e: QueueEvent) -> QueueView {
    match e.what {
        Happening::Offer { text, priority, busy, muted } => q.offered(
            text,
            priority,
            e.now,
            busy,
            muted,
        ),
        Happening::Next { busy } => match q.turn_at(e.now, busy) {
            Some(i) => q.without(i, e.now),
            None => q,
        },
        Happening::PutBack { alert } => q.with_back(alert),
    }
}

/// The queue after the first `k` of these events.
pub open spec fn after_first(q: QueueView, events: Seq<QueueEvent>, k: int) -> QueueView
    decreases k,
{
    if k <= 0 {
        q
    } else {
        after(after_first(q, events, k - 1), events[k - 1])
    }
}

/// The clock does not run backwards.
pub open spec fn in_time(events: Seq<QueueEvent>) -> bool {
    forall|i: int, j: int|
        0 <= i <= j < events.len() ==> (#[trigger] events[i]).now <= (#[trigger] events[j]).now
}

/// Is the `k`th event an offer of this text that counts?
pub open spec fn offers(events: Seq<QueueEvent>, k: int, text: Seq<char>) -> bool {
    events[k].what matches Happening::Offer { text: t, muted, .. } && t == text && counts(text, muted)
}

/// Does the `k`th event hand an alert out?
pub open spec fn hands_out(q: QueueView, events: Seq<QueueEvent>, k: int) -> bool {
    events[k].what matches Happening::Next { busy } && after_first(q, events, k).turn_at(
        events[k].now,
        busy,
    ) is Some
}

/// Whatever happens, of two like texts offered within two seconds the second
/// one collapses: nothing more waits to be said for it.
pub proof fn law_like_texts_collapse(
    q: QueueView,
    events: Seq<QueueEvent>,
    i: int,
    j: int,
    text: Seq<char>,
)
    requires
        in_time(events),
        0 <= i < j < events.len(),
        offers(events, i, text),
        offers(events, j, text),
        events[j].now < events[i].now + COLLAPSE_MS,
    ensures
        after_first(q, events, j + 1).waiting == after_first(q, events, j).waiting,
        events[j].what matches Happening::Offer { priority, busy, muted, .. } ==> !after_first(
            q,
            events,
            j,
        ).takes(text, priority, events[j].now, busy, muted),
{
    lemma_still_collapses(q, events, i, j, j, text);
}

/// What was offered is not forgotten early.
proof fn lemma_still_collapses(
    q: QueueView,
    events: Seq<QueueEvent>,
    i: int,
    k: int,
    j: int,
    text: Seq<char>,
)
    requires
        in_time(events),
        0 <= i < k <= j < events.len(),
        offers(events, i, text),
        events[j].now < events[i].now + COLLAPSE_MS,
    ensures
        after_first(q, events, k).collapses(text, events[j].now),
    decreases k,
{
    let now = events[j].now;
    let before = after_first(q, events, k - 1);
    let e = events[k - 1];
    assert(e.now <= now);
    if k == i + 1 {
        if let Happening::Offer { priority, busy, .. } = e.what {
            law_duplicates_collapse(before, text, priority, e.now, busy, now);
        }
    } else {
        lemma_still_collapses(q, events, i, k - 1, j, text);
        lemma_step_forgets_nothing(before, e, text, now);
    }
}

/// What collapses at a later time still does after an event.
proof fn lemma_step_forgets_nothing(q: QueueView, e: QueueEvent, text: Seq<char>, now: u64)
    requires
        q.collapses(text, now),
        e.now <= now,
    ensures
        after(q, e).collapses(text, now),
{
    let k = choose|k: int|
        0 <= k < q.heard.len() && (#[trigger] q.heard[k]).0 == text && within(
            q.heard[k].1,
            now,
            COLLAPSE_MS,
        );
    let record = q.heard[k];
    let keep = |t: (Seq<char>, u64)| within(t.1, e.now, COLLAPSE_MS);
    assert(keep(record));
    q.heard.lemma_filter_contains(keep, k);
    let kept = fresh(q.heard, e.now);
    let j = choose|j: int| 0 <= j < kept.len() && kept[j] == record;
    let next = after(q, e);
    if e.what is Offer && counts(e.what->text, e.what->muted) {
        assert(next.heard[j] == record);
    } else {
        assert(next.heard == q.heard);
        assert(next.heard[k] == record);
    }
}

/// Whatever happens, alerts are handed out at least half a second apart.
pub proof fn law_alerts_are_paced(q: QueueView, events: Seq<QueueEvent>, i: int, j: int)
    requires
        in_time(events),
        0 <= i < j < events.len(),
        hands_out(q, events, i),
        hands_out(q, events, j),
    ensures
        events[i].now + PACE_MS <= events[j].now,
{
    lemma_last_is_no_earlier(q, events, i, j);
}

proof fn lemma_last_is_no_earlier(q: QueueView, events: Seq<QueueEvent>, i: int, k: int)
    requires
        in_time(events),
        0 <= i < k <= events.len(),
        hands_out(q, events, i),
    ensures
        after_first(q, events, k).last matches Some(at) && at >= events[i].now,
    decreases k,
{
    if k > i + 1 {
        lemma_last_is_no_earlier(q, events, i, k - 1);
        assert(events[i].now <= events[k - 1].now);
    }
}

/// An alert that is put back is not lost: it is the next one handed out once
/// nothing is being said and half a second has passed.
pub proof fn law_put_back_is_not_lost(q: QueueView, a: AlertView, now: u64)
    requires
        !q.paced(now),
    ensures
        q.with_back(a).turn_at(now, false) == Some(0int),
        q.with_back(a).waiting[0] == a,
        q.with_back(a).without(0, now).waiting == q.waiting,
{
    assert(q.with_back(a).waiting.remove(0) =~= q.waiting);
}

/// Half a second after the last one, an alert that may speak is handed out.
/// While nothing is being said, that is the one that has waited longest; while
/// something is, it is the emergency that has waited longest.
pub proof fn law_the_longest_wait_ends_first(q: QueueView, now: u64, busy: bool)
    requires
        !q.paced(now),
    ensures
        !busy && q.waiting.len() > 0 ==> q.turn_at(now, busy) == Some(0int),
        match q.turn_at(now, busy) {
            Some(i) => {
                &&& 0 <= i < q.waiting.len()
                &&& busy ==> q.waiting[i].priority is Emergency
                &&& forall|j: int| 0 <= j < i ==> !ready(#[trigger] q.waiting[j], busy)
            },
            None => forall|j: int|
                0 <= j < q.waiting.len() ==> busy && !((#[trigger] q.waiting[j]).priority is Emergency),
        },
{
    lemma_first_ready(q.waiting, busy, 0);
    if q.turn_at(now, busy) is None {
        assert forall|j: int| 0 <= j < q.waiting.len() implies busy && !(
        (#[trigger] q.waiting[j]).priority is Emergency) by {
            assert(!ready(q.waiting[j], busy));
        }
    }
}

proof fn lemma_first_ready(waiting: Seq<AlertView>, busy: bool, from: int)
    requires
        0 <= from,
    ensures
        match first_ready(waiting, busy, from) {
            Some(i) => from <= i < waiting.len() && ready(waiting[i], busy) && forall|j: int|
                from <= j < i ==> !ready(#[trigger] waiting[j], busy),
            None => forall|j: int| from <= j < waiting.len() ==> !ready(#[trigger] waiting[j], busy),
        },
    decreases waiting.len() - from,
{
    if from < waiting.len() && !ready(waiting[from], busy) {
        lemma_first_ready(waiting, busy, from + 1);
    }
}

/// An alert that is taken in waits behind the others, with its own words and
/// at its own priority; one that is not taken in changes nothing that waits.
/// A muted client, and a text without words, change nothing at all.
pub proof fn law_where_alerts_wait(
    q: QueueView,
    text: Seq<char>,
    p: VoicePriority,
    now: u64,
    busy: bool,
    muted: bool,
)
    ensures
        ({
            let after = q.offered(text, p, now, busy, muted);
            &&& q.takes(text, p, now, busy, muted) ==> after.waiting == q.waiting.push(
                AlertView { text, priority: p, forced: false },
            )
            &&& !q.takes(text, p, now, busy, muted) ==> after.waiting == q.waiting
            &&& after.last == q.last
            &&& muted || text.len() == 0 ==> after == q && !q.takes(text, p, now, busy, muted)
        }),
{
}

/// Two seconds make the difference: a text offered less than two thousand
/// milliseconds ago collapses, and one offered no later than that does not.
pub proof fn law_two_seconds_collapse(q: QueueView, text: Seq<char>, now: u64)
    ensures
        (exists|i: int|
            0 <= i < q.heard.len() && (#[trigger] q.heard[i]).0 == text && now < q.heard[i].1 + 2000)
            <==> q.collapses(text, now),
{
    if exists|i: int|
        0 <= i < q.heard.len() && (#[trigger] q.heard[i]).0 == text && now < q.heard[i].1 + 2000 {
        let i = choose|i: int|
            0 <= i < q.heard.len() && (#[trigger] q.heard[i]).0 == text && now < q.heard[i].1
                + 2000;
        assert(within(q.heard[i].1, now, COLLAPSE_MS));
    }
    if q.collapses(text, now) {
        let i = choose|i: int|
            0 <= i < q.heard.len() && (#[trigger] q.heard[i]).0 == text && within(
                q.heard[i].1,
                now,
                COLLAPSE_MS,
            );
        assert(now < q.heard[i].1 + 2000);
    }
}

/// Half a second makes the difference: an alert is held back exactly if the
/// last one was handed out less than five hundred milliseconds ago.
pub proof fn law_half_a_second_paces(q: QueueView, now: u64)
    ensures
        q.paced(now) <==> (q.last matches Some(at) && now < at + 500),
{
}

/// What may speak at once: anything while nothing is being said, an emergency
/// at any time, and nothing else.
pub proof fn law_what_may_speak(a: AlertView, busy: bool)
    ensures
        ready(a, busy) <==> !busy || a.priority is Emergency,
{
}

/// Handing an alert out takes it, and no other, from those that wait, and
/// leaves what was heard alone.
pub proof fn law_handing_out_takes_one(q: QueueView, i: int, now: u64)
    requires
        0 <= i < q.waiting.len(),
    ensures
        q.without(i, now).waiting == q.waiting.take(i) + q.waiting.skip(i + 1),
        q.without(i, now).last == Some(now),
        q.without(i, now).heard == q.heard,
{
    assert(q.waiting.remove(i) =~= q.waiting.take(i) + q.waiting.skip(i + 1));
}

/// What contracts see of a queue is all there is to it.
pub proof fn law_queues_are_seen_whole(q: SpeakingQueue, a: Alert)
    ensures
        q@.last == q.last,
        q@.waiting.len() == q.waiting@.len(),
        forall|i: int|
            0 <= i < q.waiting@.len() ==> q@.waiting[i] == (#[trigger] q.waiting@[i]).deep_view(),
        q@.heard.len() == q.heard@.len(),
        forall|i: int|
            0 <= i < q.heard@.len() ==> q@.heard[i] == ((#[trigger] q.heard@[i]).0@, q.heard@[i].1),
        a.deep_view().text == a.text@,
        a.deep_view().priority == a.priority,
        a.deep_view().forced == a.forced,
{
}

/// Only what was offered is heard: an offer makes no other text collapse, now
/// or later.
pub proof fn law_only_what_was_offered_is_heard(
    q: QueueView,
    text: Seq<char>,
    p: VoicePriority,
    now: u64,
    busy: bool,
    muted: bool,
    other: Seq<char>,
    later: u64,
)
    requires
        other != text,
        q.offered(text, p, now, busy, muted).collapses(other, later),
    ensures
        q.collapses(other, later),
{
    let next = q.offered(text, p, now, busy, muted);
    let k = choose|k: int|
        0 <= k < next.heard.len() && (#[trigger] next.heard[k]).0 == other && within(
            next.heard[k].1,
            later,
            COLLAPSE_MS,
        );
    let record = next.heard[k];
    if counts(text, muted) {
        let keep = |t: (Seq<char>, u64)| within(t.1, now, COLLAPSE_MS);
        let kept = fresh(q.heard, now);
        assert(kept[k] == record);
        assert(kept.contains(record));
        q.heard.lemma_filter_contains_rev(keep, record);
        let i = choose|i: int| 0 <= i < q.heard.len() && q.heard[i] == record;
        assert(q.heard[i].0 == other);
    }
}

} // verus!
