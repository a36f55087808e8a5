//! The triggers in use, and what they did lately.
//!
//! Matching is the trigger engine's part, and so are the file the triggers
//! are kept in and the noises they make. Here stands what is kept of them for
//! the window, and how it changes.
use vstd::prelude::*;

use crate::triggers::{
    description, done_by, separated, watched, Action, ActionView, Condition, ConditionView, MatchType,
    OverlayEvent, TriggerConfig, TriggerDef, TriggerView, VoicePriority,
};

verus! {

/// How many fired triggers are remembered.
pub const REMEMBERED: usize = 20;

/// What a fired trigger looked like, for the window to show.
#[derive(Debug, Clone)]
pub struct Fired {
    pub message: String,
    pub spoke: bool,
    pub played: Option<String>,
}

/// A [`Fired`] as contracts see it.
#[verifier::ext_equal]
pub struct FiredView {
    pub message: Seq<char>,
    pub spoke: bool,
    pub played: Option<Seq<char>>,
}

impl DeepView for Fired {
    type V = FiredView;

    open spec fn deep_view(&self) -> FiredView {
        FiredView { message: self.message@, spoke: self.spoke, played: self.played.deep_view() }
    }
}

/// An event of the engine, and what came of it: the file that was played, if
/// one was, and whether its words were spoken.
#[derive(Debug)]
pub struct Handled {
    pub event: OverlayEvent,
    pub played: Option<String>,
    pub spoke: bool,
}

/// A [`Handled`] as contracts see it.
pub struct HandledView {
    pub message: Seq<char>,
    pub sound: Option<Seq<char>>,
    pub tts_text: Option<Seq<char>>,
    pub tts_priority: VoicePriority,
    pub played: Option<Seq<char>>,
    pub spoke: bool,
}

impl DeepView for Handled {
    type V = HandledView;

    open spec fn deep_view(&self) -> HandledView {
        HandledView {
            message: self.event.message@,
            sound: self.event.sound.deep_view(),
            tts_text: self.event.tts_text.deep_view(),
            tts_priority: self.event.tts_priority,
            played: self.played.deep_view(),
            spoke: self.spoke,
        }
    }
}

/// What is shown of an event: its message, or its words where it has none;
/// that it spoke only if it has words, what it played only if it names a
/// sound, and neither while muted.
pub open spec fn fired_by(h: HandledView, muted: bool) -> FiredView {
    FiredView {
        message: if h.message.len() > 0 {
            h.message
        } else {
            match h.tts_text {
                Some(text) => text,
                None => Seq::empty(),
            }
        },
        spoke: h.spoke && h.tts_text is Some && !muted,
        played: if h.sound is Some && !muted {
            h.played
        } else {
            None
        },
    }
}

/// The last ones of a list, as many as are remembered.
pub open spec fn latest(list: Seq<FiredView>) -> Seq<FiredView> {
    if list.len() > REMEMBERED {
        list.skip(list.len() - REMEMBERED)
    } else {
        list
    }
}

/// What is remembered once these events were handled.
pub open spec fn remembered(
    recent: Seq<FiredView>,
    handled: Seq<HandledView>,
    muted: bool,
) -> Seq<FiredView> {
    if handled.len() == 0 {
        recent
    } else {
        latest(recent + handled.map_values(|h: HandledView| fired_by(h, muted)))
    }
}

/// The triggers with one of them turned on or off.
pub open spec fn switched(list: Seq<TriggerView>, index: int, on: bool) -> Seq<TriggerView> {
    if 0 <= index < list.len() {
        list.update(index, TriggerView { enabled: on, ..list[index] })
    } else {
        list
    }
}

/// The trigger made from a name, a pattern, a sound and words to say. No
/// sound, or no words, means no action for it.
pub open spec fn new_trigger(
    name: Seq<char>,
    pattern: Seq<char>,
    sound: Seq<char>,
    say: Seq<char>,
) -> TriggerView {
    let play = ActionView::PlaySound { sound: Some(sound), delay_secs_bits: 0 };
    let speak = ActionView::VoiceAlert { tts_text: say, priority: None };
    TriggerView {
        name,
        enabled: true,
        conditions: seq![ConditionView::Match { match_type: MatchType::Regex, pattern }],
        actions: (if sound.len() > 0 {
            seq![play]
        } else {
            Seq::empty()
        }) + (if say.len() > 0 {
            seq![speak]
        } else {
            Seq::empty()
        }),
    }
}

/// The triggers in use, and what they did lately.
#[derive(Debug)]
pub struct Alerts {
    /// what fired recently, newest last, capped
    pub recent: Vec<Fired>,
    pub enabled: bool,
    /// the triggers as loaded, kept so the window can show and edit them
    pub cfg: TriggerConfig,
}

impl Alerts {
    /// The triggers in use, in their order.
    pub open spec fn list(self) -> Seq<TriggerView> {
        self.cfg.triggers.deep_view()
    }

    /// Nothing has fired yet.
    pub fn load(enabled: bool, cfg: TriggerConfig) -> (r: Self)
        ensures
            r.recent@.len() == 0,
            r.enabled == enabled,
            r.list() == cfg.triggers.deep_view(),
    {
        Alerts { recent: Vec::new(), enabled, cfg }
    }

    pub fn triggers(&self) -> (r: &[TriggerDef])
        ensures
            r.deep_view() == self.list(),
    {
        let r = self.cfg.triggers.as_slice();
        assert(r.deep_view() =~= self.list());
        r
    }

    pub fn count(&self) -> (r: usize)
        ensures
            r == self.list().len(),
    {
        self.cfg.triggers.len()
    }

    /// Turn one trigger on or off. Enabling and disabling is most of what
    /// trigger editing actually is day to day; the rest is text. Says whether
    /// there is such a trigger, and so whether there is something to write
    /// back.
    pub fn set_enabled(&mut self, index: usize, on: bool) -> (changed: bool)
        ensures
            changed == (index < old(self).list().len()),
            final(self).recent == old(self).recent,
            final(self).enabled == old(self).enabled,
            final(self).list() == switched(old(self).list(), index as int, on),
    {
        if index < self.cfg.triggers.len() {
            self.cfg.triggers[index].enabled = on;
            assert(self.list() =~= switched(old(self).list(), index as int, on));
            true
        } else {
            false
        }
    }

    /// Start using a file that was checked and written. Checking comes first:
    /// a typo shows up here, and a text that does not parse is not written at
    /// all (see [`is_to_be_written`]). Gives the number of triggers, or what
    /// went wrong first.
    pub fn write_file(
        &mut self,
        parsed: Result<TriggerConfig, String>,
        written: Result<(), String>,
    ) -> (r: Result<usize, String>)
        ensures
            final(self).recent == old(self).recent,
            final(self).enabled == old(self).enabled,
            match (parsed, written) {
                (Ok(cfg), Ok(_)) => {
                    &&& r == Ok::<usize, String>(cfg.triggers.len())
                    &&& final(self).list() == cfg.triggers.deep_view()
                },
                (Err(e), _) => {
                    &&& r == Err::<usize, String>(e)
                    &&& final(self).list() == old(self).list()
                },
                (Ok(_), Err(e)) => {
                    &&& r == Err::<usize, String>(e)
                    &&& final(self).list() == old(self).list()
                },
            },
    {
        match parsed {
            Err(e) => Err(e),
            Ok(cfg) => match written {
                Err(e) => Err(e),
                Ok(_) => {
                    let n: usize = cfg.triggers.len();
                    self.cfg = cfg;
                    Ok(n)
                },
            },
        }
    }

    /// Append a new trigger.
    pub fn add_trigger(&mut self, name: &str, pattern: &str, sound: &str, say: &str)
        ensures
            final(self).recent == old(self).recent,
            final(self).enabled == old(self).enabled,
            final(self).list() == old(self).list().push(new_trigger(name@, pattern@, sound@, say@)),
    {
        let mut actions: Vec<Action> = Vec::new();
        if !sound.is_empty() {
            actions.push(Action::PlaySound { sound: Some(sound.to_owned()), delay_secs_bits: 0 });
        }
        if !say.is_empty() {
            actions.push(Action::VoiceAlert { tts_text: say.to_owned(), priority: None });
        }
        let mut conditions: Vec<Condition> = Vec::new();
        conditions.push(
            Condition::Match { match_type: MatchType::Regex, pattern: pattern.to_owned() },
        );
        let def = TriggerDef { name: name.to_owned(), enabled: true, conditions, actions };
        let ghost view = new_trigger(name@, pattern@, sound@, say@);
        proof {
            assert(def.conditions.deep_view() =~= view.conditions);
            assert(def.actions.deep_view() =~= view.actions);
            assert(def.deep_view() == view);
        }
        self.cfg.triggers.push(def);
        assert(self.list() =~= old(self).list().push(view));
    }

    /// Start using the triggers that were read again.
    pub fn reload(&mut self, cfg: TriggerConfig)
        ensures
            final(self).recent == old(self).recent,
            final(self).enabled == old(self).enabled,
            final(self).list() == cfg.triggers.deep_view(),
    {
        self.cfg = cfg;
    }

    /// The line to feed through the engine, if triggers are on.
    pub fn process_line<'a>(&self, line: &'a str) -> (r: Option<&'a str>)
        ensures
            r == if self.enabled {
                Some(line)
            } else {
                None
            },
    {
        if self.enabled {
            Some(line)
        } else {
            None
        }
    }

    /// Note what fired, oldest first. What is done about each event is what
    /// [`due`] says. A log is long; the interesting alert is the last one.
    pub fn pump(&mut self, handled: Vec<Handled>, muted: bool)
        ensures
            final(self).enabled == old(self).enabled,
            final(self).list() == old(self).list(),
            final(self).recent.deep_view() == remembered(
                old(self).recent.deep_view(),
                handled.deep_view(),
                muted,
            ),
    {
        let n: usize = handled.len();
        if n == 0 {
            return;
        }
        let ghost was = self.recent.deep_view();
        let ghost all = handled.deep_view();
        let ghost fired = all.map_values(|h: HandledView| fired_by(h, muted));
        let mut i: usize = 0;
        assert(was + fired.take(0) =~= was);
        while i < n
            invariant
                i <= n == handled@.len(),
                all == handled.deep_view(),
                fired == all.map_values(|h: HandledView| fired_by(h, muted)),
                self.enabled == old(self).enabled,
                self.list() == old(self).list(),
                self.recent.deep_view() == was + fired.take(i as int),
            decreases n - i,
        {
            let f = shown(&handled[i], muted);
            let ghost v = f.deep_view();
            let ghost before = self.recent.deep_view();
            self.recent.push(f);
            proof {
                assert(self.recent.deep_view() =~= before.push(v));
                assert(v == fired[i as int]);
                assert(self.recent.deep_view() =~= was + fired.take(i + 1));
            }
            i += 1;
        }
        proof {
            assert(fired.take(n as int) =~= fired);
        }
        if self.recent.len() > REMEMBERED {
            let ghost list = self.recent.deep_view();
            let overflow: usize = self.recent.len() - REMEMBERED;
            let kept = self.recent.split_off(overflow);
            assert(kept.deep_view() =~= latest(list));
            self.recent = kept;
        }
    }
}

/// What is to be done about an event: the sound to play and the words to say.
/// While muted there is nothing to do.
pub fn due<'a>(ev: &'a OverlayEvent, muted: bool) -> (r: (Option<&'a str>, Option<&'a str>))
    ensures
        r.0.deep_view() == if muted {
            None
        } else {
            ev.sound.deep_view()
        },
        r.1.deep_view() == if muted {
            None
        } else {
            ev.tts_text.deep_view()
        },
{
    if muted {
        return (None, None);
    }
    let sound: Option<&str> = match &ev.sound {
        Some(s) => Some(s.as_str()),
        None => None,
    };
    let words: Option<&str> = match &ev.tts_text {
        Some(t) => Some(t.as_str()),
        None => None,
    };
    (sound, words)
}

/// Is a text that was to be the trigger file to be written? Only if it
/// parses: a typo must not silently empty the file the engine reads.
pub fn is_to_be_written(parsed: &Result<TriggerConfig, String>) -> (r: bool)
    ensures
        r == parsed is Ok,
{
    match parsed {
        Ok(_) => true,
        Err(_) => false,
    }
}

/// What is shown of an event.
fn shown(h: &Handled, muted: bool) -> (r: Fired)
    ensures
        r.deep_view() == fired_by(h.deep_view(), muted),
{
    let message: String = if !h.event.message.as_str().is_empty() {
        h.event.message.clone()
    } else {
        match &h.event.tts_text {
            Some(text) => text.clone(),
            None => String::new(),
        }
    };
    let played: Option<String> = match (&h.event.sound, &h.played) {
        (Some(_), Some(file)) => if muted {
            None
        } else {
            Some(file.clone())
        },
        _ => None,
    };
    let r = Fired { message, spoke: h.spoke && h.event.tts_text.is_some() && !muted, played };
    assert(r.deep_view() =~= fired_by(h.deep_view(), muted));
    r
}

// ---------------------------------------------------------------------------
// Laws
// ---------------------------------------------------------------------------
/// The memory never outgrows its limit, and ends with what fired last.
pub proof fn law_memory_is_bounded(recent: Seq<FiredView>, handled: Seq<HandledView>, muted: bool)
    requires
        recent.len() <= REMEMBERED,
    ensures
        remembered(recent, handled, muted).len() <= REMEMBERED,
        handled.len() > 0 ==> remembered(recent, handled, muted).len() > 0 && remembered(
            recent,
            handled,
            muted,
        ).last() == fired_by(handled.last(), muted),
{
}

/// Nothing is said to have spoken that had no words, nor to have played that
/// named no sound, nor either while muted.
pub proof fn law_only_what_was_due_is_shown(h: HandledView, muted: bool)
    ensures
        fired_by(h, muted).spoke ==> h.tts_text is Some && !muted,
        fired_by(h, muted).played is Some ==> h.sound is Some && !muted,
{
}

/// It makes no difference whether events come at once or in two batches.
pub proof fn law_batches_add_up(
    recent: Seq<FiredView>,
    first: Seq<HandledView>,
    later: Seq<HandledView>,
    muted: bool,
)
    requires
        recent.len() <= REMEMBERED,
    ensures
        remembered(remembered(recent, first, muted), later, muted) == remembered(
            recent,
            first + later,
            muted,
        ),
{
    let f = |h: HandledView| fired_by(h, muted);
    let a = first.map_values(f);
    let b = later.map_values(f);
    assert((first + later).map_values(f) =~= a + b);
    if first.len() == 0 {
        assert(first + later =~= later);
    } else if later.len() == 0 {
        assert(first + later =~= first);
    } else {
        assert(recent + (a + b) =~= (recent + a) + b);
        assert(latest(latest(recent + a) + b) =~= latest((recent + a) + b));
    }
}

/// Turning a trigger on or off changes neither another trigger nor anything
/// else of this one, and setting it back undoes it.
pub proof fn law_switching_touches_one_trigger(list: Seq<TriggerView>, index: int, on: bool)
    requires
        0 <= index < list.len(),
    ensures
        switched(list, index, on).len() == list.len(),
        switched(list, index, on)[index].enabled == on,
        switched(list, index, on)[index] == (TriggerView { enabled: on, ..list[index] }),
        forall|i: int|
            0 <= i < list.len() && i != index ==> #[trigger] switched(list, index, on)[i]
                == list[i],
        switched(switched(list, index, on), index, list[index].enabled) == list,
{
    assert(switched(switched(list, index, on), index, list[index].enabled) =~= list);
}

/// A new trigger is described by its pattern, whatever it does.
pub proof fn law_new_trigger_watches_its_pattern(
    name: Seq<char>,
    pattern: Seq<char>,
    sound: Seq<char>,
    say: Seq<char>,
)
    ensures
        description(new_trigger(name, pattern, sound, say)) == pattern + "  →  "@ + (if sound.len()
            > 0 && say.len() > 0 {
            "sound"@ + ", "@ + "voice"@
        } else if sound.len() > 0 {
            "sound"@
        } else if say.len() > 0 {
            "voice"@
        } else {
            Seq::empty()
        }),
{
    let def = new_trigger(name, pattern, sound, say);
    let watches = def.conditions.map_values(|c: ConditionView| watched(c));
    let does = def.actions.map_values(|a: ActionView| done_by(a));
    assert(watches =~= seq![pattern]);
    if sound.len() > 0 && say.len() > 0 {
        assert(does =~= seq!["sound"@, "voice"@]);
        assert(does.drop_last() =~= seq!["sound"@]);
        reveal_with_fuel(separated, 2);
    }
}

/// What is shown of an event: its message as it is; without one its words, and
/// without those nothing. That it spoke, and what it played, is shown as it
/// came out, if it had words or a sound and the client was not muted.
pub proof fn law_what_is_shown(h: HandledView, muted: bool)
    ensures
        h.message.len() > 0 ==> fired_by(h, muted).message == h.message,
        h.message.len() == 0 ==> (h.tts_text matches Some(t) ==> fired_by(h, muted).message == t),
        h.message.len() == 0 && h.tts_text is None ==> fired_by(h, muted).message.len() == 0,
        h.tts_text is Some && !muted ==> fired_by(h, muted).spoke == h.spoke,
        h.sound is Some && !muted ==> fired_by(h, muted).played == h.played,
        muted ==> !fired_by(h, muted).spoke && fired_by(h, muted).played is None,
        h.tts_text is None ==> !fired_by(h, muted).spoke,
        h.sound is None ==> fired_by(h, muted).played is None,
{
}

/// The last twenty are remembered, in order: the newest is what fired last,
/// and before it stands what fired before it, up to twenty or to the oldest.
pub proof fn law_the_last_twenty_are_remembered(
    recent: Seq<FiredView>,
    handled: Seq<HandledView>,
    muted: bool,
    back: int,
)
    requires
        handled.len() > 0,
        0 <= back < remembered(recent, handled, muted).len(),
    ensures
        recent.len() + handled.len() <= 20 ==> remembered(recent, handled, muted).len()
            == recent.len() + handled.len(),
        recent.len() + handled.len() > 20 ==> remembered(recent, handled, muted).len() == 20,
        ({
            let now = remembered(recent, handled, muted);
            let shown = now[now.len() - 1 - back];
            &&& back < handled.len() ==> shown == fired_by(
                handled[handled.len() - 1 - back],
                muted,
            )
            &&& back >= handled.len() ==> shown == recent[recent.len() + handled.len() - 1 - back]
        }),
{
}

/// Without events nothing changes.
pub proof fn law_nothing_fired_nothing_changes(recent: Seq<FiredView>, muted: bool)
    ensures
        remembered(recent, Seq::empty(), muted) == recent,
{
}

/// A new trigger is on, watches for its pattern as a regular expression, and
/// plays its sound and then says its words, as far as it has them.
pub proof fn law_what_a_new_trigger_does(
    name: Seq<char>,
    pattern: Seq<char>,
    sound: Seq<char>,
    say: Seq<char>,
)
    ensures
        ({
            let t = new_trigger(name, pattern, sound, say);
            let play = ActionView::PlaySound { sound: Some(sound), delay_secs_bits: 0 };
            let speak = ActionView::VoiceAlert { tts_text: say, priority: None };
            &&& t.name == name
            &&& t.enabled
            &&& t.conditions == seq![
                ConditionView::Match { match_type: MatchType::Regex, pattern },
            ]
            &&& sound.len() > 0 && say.len() > 0 ==> t.actions == seq![play, speak]
            &&& sound.len() > 0 && say.len() == 0 ==> t.actions == seq![play]
            &&& sound.len() == 0 && say.len() > 0 ==> t.actions == seq![speak]
            &&& sound.len() == 0 && say.len() == 0 ==> t.actions.len() == 0
        }),
{
    let t = new_trigger(name, pattern, sound, say);
    let play = ActionView::PlaySound { sound: Some(sound), delay_secs_bits: 0 };
    let speak = ActionView::VoiceAlert { tts_text: say, priority: None };
    if sound.len() > 0 && say.len() > 0 {
        assert(t.actions =~= seq![play, speak]);
    } else if sound.len() > 0 {
        assert(t.actions =~= seq![play]);
    } else if say.len() > 0 {
        assert(t.actions =~= seq![speak]);
    }
}

/// An index without a trigger switches nothing.
pub proof fn law_no_trigger_no_switch(list: Seq<TriggerView>, index: int, on: bool)
    requires
        index >= list.len(),
    ensures
        switched(list, index, on) == list,
{
}

/// What contracts see of an event and of what came of it is all there is to
/// it.
pub proof fn law_events_are_seen_whole(h: Handled, f: Fired, a: Alerts)
    ensures
        h.deep_view().message == h.event.message@,
        h.deep_view().tts_priority == h.event.tts_priority,
        h.deep_view().spoke == h.spoke,
        h.event.sound matches Some(s) ==> h.deep_view().sound == Some(s@),
        h.event.sound is None ==> h.deep_view().sound is None,
        h.event.tts_text matches Some(t) ==> h.deep_view().tts_text == Some(t@),
        h.event.tts_text is None ==> h.deep_view().tts_text is None,
        h.played matches Some(p) ==> h.deep_view().played == Some(p@),
        h.played is None ==> h.deep_view().played is None,
        f.deep_view().message == f.message@,
        f.deep_view().spoke == f.spoke,
        f.played matches Some(p) ==> f.deep_view().played == Some(p@),
        f.played is None ==> f.deep_view().played is None,
        a.list().len() == a.cfg.triggers@.len(),
        forall|i: int|
            0 <= i < a.cfg.triggers@.len() ==> a.list()[i] == (
            #[trigger] a.cfg.triggers@[i]).deep_view(),
{
}

/// What is done about an event is to play its sound and to say its words, each
/// if it has them, and nothing while muted.
pub proof fn law_what_is_done_about_an_event(
    ev: &OverlayEvent,
    heard: (Option<&str>, Option<&str>),
    muted: (Option<&str>, Option<&str>),
)
    requires
        call_ensures(due, (ev, false), heard),
        call_ensures(due, (ev, true), muted),
    ensures
        ev.sound matches Some(s) ==> (heard.0 matches Some(t) && t@ == s@),
        ev.sound is None ==> heard.0 is None,
        ev.tts_text matches Some(s) ==> (heard.1 matches Some(t) && t@ == s@),
        ev.tts_text is None ==> heard.1 is None,
        muted.0 is None && muted.1 is None,
{
    assert(ev.sound.deep_view() == heard.0.deep_view());
    assert(ev.tts_text.deep_view() == heard.1.deep_view());
    assert(muted.0.deep_view() is None);
    assert(muted.1.deep_view() is None);
}

/// A text is written to the trigger file exactly if it parses.
pub proof fn law_a_typo_is_not_written(parsed: &Result<TriggerConfig, String>, r: bool)
    requires
        call_ensures(is_to_be_written, (parsed,), r),
    ensures
        r <==> *parsed is Ok,
{
}

/// Lines go through the engine exactly while triggers are on, and unchanged.
pub proof fn law_lines_pass_while_triggers_are_on(a: &Alerts, line: &str, r: Option<&str>)
    requires
        call_ensures(Alerts::process_line, (a, line), r),
    ensures
        r is Some <==> a.enabled,
        r matches Some(l) ==> l@ == line@,
{
}

} // verus!
