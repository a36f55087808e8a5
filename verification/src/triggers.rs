//! Triggers as the window shows and edits them, and what the trigger engine
//! reports when one fires.
//!
//! The engine has its own types; these hold what is read of them here.
use vstd::prelude::*;

verus! {

/// How urgent a spoken alert is.
#[derive(Debug, Clone, Copy, PartialEq, Eq, Structural)]
pub enum VoicePriority {
    /// Needed now: worth cutting off whatever is talking.
    Emergency,
    /// Waits for its turn.
    Operational,
    /// Trivia: gives way to anything that is being said.
    Ambient,
}

/// How a pattern is matched.
#[derive(Debug, Clone, Copy, PartialEq, Eq, Structural)]
pub enum MatchType {
    Regex,
    /// Any other way the engine knows.
    Other,
}

/// What a trigger watches for.
#[derive(Debug)]
pub enum Condition {
    /// A line that matches a pattern.
    Match { match_type: MatchType, pattern: String },
    /// The value of a variable.
    Var { var_name: String },
}

/// What a trigger does.
#[derive(Debug)]
pub enum Action {
    /// Show a message.
    Overlay,
    /// Speak. No priority means the engine's own choice.
    VoiceAlert { tts_text: String, priority: Option<VoicePriority> },
    /// Play a sound after a delay; the delay is in seconds, as the bits of a
    /// double-precision number.
    PlaySound { sound: Option<String>, delay_secs_bits: u64 },
    /// Store a variable.
    StoreVar,
}

/// A trigger: what it watches for and what it does.
#[derive(Debug)]
pub struct TriggerDef {
    pub name: String,
    pub enabled: bool,
    pub conditions: Vec<Condition>,
    pub actions: Vec<Action>,
}

/// The triggers of a file.
#[derive(Debug)]
pub struct TriggerConfig {
    pub triggers: Vec<TriggerDef>,
}

/// What the engine reports when an action of a trigger is due.
#[derive(Debug)]
pub struct OverlayEvent {
    pub message: String,
    pub sound: Option<String>,
    pub tts_text: Option<String>,
    pub tts_priority: VoicePriority,
}

/// A [`Condition`] as contracts see it.
pub enum ConditionView {
    Match { match_type: MatchType, pattern: Seq<char> },
    Var { var_name: Seq<char> },
}

/// An [`Action`] as contracts see it.
pub enum ActionView {
    Overlay,
    VoiceAlert { tts_text: Seq<char>, priority: Option<VoicePriority> },
    PlaySound { sound: Option<Seq<char>>, delay_secs_bits: u64 },
    StoreVar,
}

/// A [`TriggerDef`] as contracts see it.
#[verifier::ext_equal]
pub struct TriggerView {
    pub name: Seq<char>,
    pub enabled: bool,
    pub conditions: Seq<ConditionView>,
    pub actions: Seq<ActionView>,
}

impl DeepView for Condition {
    type V = ConditionView;

    open spec fn deep_view(&self) -> ConditionView {
        match self {
            Condition::Match { match_type, pattern } => ConditionView::Match {
                match_type: *match_type,
                pattern: pattern@,
            },
            Condition::Var { var_name } => ConditionView::Var { var_name: var_name@ },
        }
    }
}

impl DeepView for Action {
    type V = ActionView;

    open spec fn deep_view(&self) -> ActionView {
        match self {
            Action::Overlay => ActionView::Overlay,
            Action::VoiceAlert { tts_text, priority } => ActionView::VoiceAlert {
                tts_text: tts_text@,
                priority: *priority,
            },
            Action::PlaySound { sound, delay_secs_bits } => ActionView::PlaySound {
                sound: sound.deep_view(),
                delay_secs_bits: *delay_secs_bits,
            },
            Action::StoreVar => ActionView::StoreVar,
        }
    }
}

impl DeepView for TriggerDef {
    type V = TriggerView;

    open spec fn deep_view(&self) -> TriggerView {
        TriggerView {
            name: self.name@,
            enabled: self.enabled,
            conditions: self.conditions.deep_view(),
            actions: self.actions.deep_view(),
        }
    }
}

/// What a condition watches for, in a word.
pub open spec fn watched(c: ConditionView) -> Seq<char> {
    match c {
        ConditionView::Match { match_type, pattern } => pattern,
        ConditionView::Var { var_name } => "$"@ + var_name,
    }
}

/// What an action does, in a word.
pub open spec fn done_by(a: ActionView) -> Seq<char> {
    match a {
        ActionView::Overlay => "message"@,
        ActionView::VoiceAlert { tts_text, priority } => "voice"@,
        ActionView::PlaySound { sound, delay_secs_bits } => "sound"@,
        ActionView::StoreVar => "variable"@,
    }
}

/// The texts with the separator between neighbours.
pub open spec fn separated(parts: Seq<Seq<char>>, separator: Seq<char>) -> Seq<char>
    decreases parts.len(),
{
    if parts.len() == 0 {
        Seq::empty()
    } else if parts.len() == 1 {
        parts[0]
    } else {
        separated(parts.drop_last(), separator) + separator + parts.last()
    }
}

/// What a trigger watches for and what it does, in one line.
pub open spec fn description(def: TriggerView) -> Seq<char> {
    separated(def.conditions.map_values(|c: ConditionView| watched(c)), " & "@) + "  →  "@ + separated(
        def.actions.map_values(|a: ActionView| done_by(a)),
        ", "@,
    )
}

/// A list that grows by one part grows in writing by the separator, unless it
/// was empty, and the part.
proof fn lemma_separated_push(parts: Seq<Seq<char>>, separator: Seq<char>, part: Seq<char>)
    ensures
        separated(parts.push(part), separator) == if parts.len() == 0 {
            part
        } else {
            separated(parts, separator) + separator + part
        },
{
    assert(parts.push(part).drop_last() =~= parts);
}

/// One line describing what a trigger watches for and what it does, so the
/// list is readable without opening the file.
pub fn describe(def: &TriggerDef) -> (r: String)
    ensures
        r@ == description(def.deep_view()),
{
    let mut watches = String::new();
    let ghost all_watched = def.conditions.deep_view().map_values(|c: ConditionView| watched(c));
    let mut i: usize = 0;
    assert(all_watched.take(0) =~= Seq::<Seq<char>>::empty());
    while i < def.conditions.len()
        invariant
            i <= def.conditions@.len(),
            all_watched == def.conditions.deep_view().map_values(|c: ConditionView| watched(c)),
            watches@ == separated(all_watched.take(i as int), " & "@),
        decreases def.conditions@.len() - i,
    {
        proof {
            assert(all_watched.take(i + 1) =~= all_watched.take(i as int).push(
                all_watched[i as int],
            ));
            lemma_separated_push(all_watched.take(i as int), " & "@, all_watched[i as int]);
        }
        if i > 0 {
            watches.append(" & ");
        }
        let ghost before = watches@;
        match &def.conditions[i] {
            Condition::Match { pattern, .. } => {
                watches.append(pattern.as_str());
            },
            Condition::Var { var_name } => {
                watches.append("$");
                watches.append(var_name.as_str());
                assert(watches@ =~= before + ("$"@ + var_name@));
            },
        }
        assert(watches@ =~= before + all_watched[i as int]);
        assert(watches@ =~= separated(all_watched.take(i + 1), " & "@));
        i += 1;
    }
    let mut does = String::new();
    let ghost all_done = def.actions.deep_view().map_values(|a: ActionView| done_by(a));
    let mut k: usize = 0;
    assert(all_done.take(0) =~= Seq::<Seq<char>>::empty());
    while k < def.actions.len()
        invariant
            k <= def.actions@.len(),
            all_done == def.actions.deep_view().map_values(|a: ActionView| done_by(a)),
            does@ == separated(all_done.take(k as int), ", "@),
        decreases def.actions@.len() - k,
    {
        proof {
            assert(all_done.take(k + 1) =~= all_done.take(k as int).push(all_done[k as int]));
            lemma_separated_push(all_done.take(k as int), ", "@, all_done[k as int]);
        }
        if k > 0 {
            does.append(", ");
        }
        let ghost before = does@;
        match &def.actions[k] {
            Action::Overlay => does.append("message"),
            Action::VoiceAlert { .. } => does.append("voice"),
            Action::PlaySound { .. } => does.append("sound"),
            Action::StoreVar => does.append("variable"),
        }
        assert(does@ =~= before + all_done[k as int]);
        assert(does@ =~= separated(all_done.take(k + 1), ", "@));
        k += 1;
    }
    proof {
        assert(all_watched.take(all_watched.len() as int) =~= all_watched);
        assert(all_done.take(all_done.len() as int) =~= all_done);
    }
    watches.append("  →  ");
    watches.append(does.as_str());
    watches
}

// ---------------------------------------------------------------------------
// Laws
// ---------------------------------------------------------------------------
/// Parts are written with the separator between neighbours, and nowhere else.
pub proof fn law_separators_stand_between(
    parts: Seq<Seq<char>>,
    part: Seq<char>,
    separator: Seq<char>,
)
    ensures
        separated(Seq::empty(), separator) == Seq::<char>::empty(),
        separated(seq![part], separator) == part,
        parts.len() > 0 ==> separated(parts.push(part), separator) == separated(parts, separator)
            + separator + part,
{
    lemma_separated_push(parts, separator, part);
}

/// A trigger's line tells what it watches for (a pattern as it is, a variable
/// behind a dollar sign), an arrow, and what it does, each in a word. It tells
/// neither the trigger's name nor whether it is on.
pub proof fn law_a_description_tells_all(
    def: TriggerView,
    watches: Seq<Seq<char>>,
    does: Seq<Seq<char>>,
)
    requires
        watches.len() == def.conditions.len(),
        does.len() == def.actions.len(),
        forall|i: int|
            0 <= i < watches.len() ==> (match #[trigger] def.conditions[i] {
                ConditionView::Match { pattern, .. } => watches[i] == pattern,
                ConditionView::Var { var_name } => watches[i] == "$"@ + var_name,
            }),
        forall|i: int|
            0 <= i < does.len() ==> (match #[trigger] def.actions[i] {
                ActionView::Overlay => does[i] == "message"@,
                ActionView::VoiceAlert { .. } => does[i] == "voice"@,
                ActionView::PlaySound { .. } => does[i] == "sound"@,
                ActionView::StoreVar => does[i] == "variable"@,
            }),
    ensures
        description(def) == separated(watches, " & "@) + "  →  "@ + separated(does, ", "@),
{
    assert(def.conditions.map_values(|c: ConditionView| watched(c)) =~= watches);
    assert(def.actions.map_values(|a: ActionView| done_by(a)) =~= does);
}

/// What contracts see of a trigger is all there is to it.
pub proof fn law_triggers_are_seen_whole(def: TriggerDef, c: Condition, a: Action)
    ensures
        def.deep_view().name == def.name@,
        def.deep_view().enabled == def.enabled,
        def.deep_view().conditions.len() == def.conditions@.len(),
        def.deep_view().actions.len() == def.actions@.len(),
        forall|i: int|
            0 <= i < def.conditions@.len() ==> def.deep_view().conditions[i] == (
            #[trigger] def.conditions@[i]).deep_view(),
        forall|i: int|
            0 <= i < def.actions@.len() ==> def.deep_view().actions[i] == (
            #[trigger] def.actions@[i]).deep_view(),
        c matches Condition::Match { match_type, pattern } ==> c.deep_view() == (
        ConditionView::Match { match_type, pattern: pattern@ }),
        c matches Condition::Var { var_name } ==> c.deep_view() == (ConditionView::Var {
            var_name: var_name@,
        }),
        a is Overlay ==> a.deep_view() is Overlay,
        a is StoreVar ==> a.deep_view() is StoreVar,
        a matches Action::VoiceAlert { tts_text, priority } ==> a.deep_view() == (
        ActionView::VoiceAlert { tts_text: tts_text@, priority }),
        a matches Action::PlaySound { sound: Some(s), delay_secs_bits } ==> a.deep_view() == (
        ActionView::PlaySound { sound: Some(s@), delay_secs_bits }),
        a matches Action::PlaySound { sound: None, delay_secs_bits } ==> a.deep_view() == (
        ActionView::PlaySound { sound: None, delay_secs_bits }),
{
}

} // verus!
