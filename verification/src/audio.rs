//! Which programs are asked to make a noise, and how loud.
//!
//! Everything is played through the desktop's own audio server, tagged as
//! froklog watch, so it shows up as its own stream in the volume mixer and can
//! be turned down without touching the game.
use vstd::prelude::*;

use crate::text::{chars_of, decimal, to_decimal};

verus! {

/// A program and its arguments.
#[derive(Debug)]
pub struct Invocation {
    pub program: String,
    pub args: Vec<String>,
}

/// An [`Invocation`] as contracts see it.
#[verifier::ext_equal]
pub struct InvocationView {
    pub program: Seq<char>,
    pub args: Seq<Seq<char>>,
}

impl View for Invocation {
    type V = InvocationView;

    open spec fn view(&self) -> InvocationView {
        InvocationView { program: self.program@, args: self.args.deep_view() }
    }
}

impl DeepView for Invocation {
    type V = InvocationView;

    open spec fn deep_view(&self) -> InvocationView {
        self@
    }
}

/// The master volume in percent. Nothing is louder than 100.
pub open spec fn percent(volume: u8) -> nat {
    if volume < 100 {
        volume as nat
    } else {
        100
    }
}

/// The master volume in percent.
pub(crate) fn capped(volume: u8) -> (r: u8)
    ensures
        r == percent(volume),
{
    if volume < 100 {
        volume
    } else {
        100
    }
}

/// The volume on paplay's scale, where 65536 is 100%.
pub open spec fn paplay_level(volume: u8) -> nat {
    percent(volume) * 65536 / 100
}

/// The argument that tells paplay how loud to be.
pub open spec fn volume_argument(volume: u8) -> Seq<char> {
    "--volume="@ + decimal(paplay_level(volume))
}

/// paplay volume scale: 65536 = 100%.
pub fn paplay_volume(volume: u8) -> (r: String)
    ensures
        r@ == volume_argument(volume),
{
    let v: u32 = capped(volume) as u32;
    let mut r: String = "--volume=".to_owned();
    let level = to_decimal(v * 65536 / 100);
    r.append(level.as_str());
    r
}

/// Where a sound comes from.
#[derive(Debug, Clone, Copy, PartialEq, Eq, Structural)]
pub enum Source {
    /// Nothing is to be played.
    Nothing,
    /// The name is the path of a file.
    File,
    /// The name is a label, which the active sound package maps to a file.
    Label,
}

/// Where a sound comes from, mute switch or not.
pub open spec fn source(sound: Seq<char>, exists_as_path: bool) -> Source {
    if sound.len() == 0 {
        Source::Nothing
    } else if sound[0] == '/' && exists_as_path {
        Source::File
    } else {
        Source::Label
    }
}

/// Resolve a trigger's sound.
///
/// A trigger names a sound by label ("Ding"), which the active sound package
/// maps to a file; that is what lets one package swap every trigger's sounds
/// at once. An absolute path is taken literally, for a sound that is not in a
/// package at all.
pub fn play(sound: &str, exists_as_path: bool, muted: bool) -> (r: Source)
    ensures
        r == if muted {
            Source::Nothing
        } else {
            source(sound@, exists_as_path)
        },
{
    if muted {
        return Source::Nothing;
    }
    play_forced(sound, exists_as_path)
}

/// Resolve a sound regardless of the mute switch (auditions). Volume still
/// applies.
pub fn play_forced(sound: &str, exists_as_path: bool) -> (r: Source)
    ensures
        r == source(sound@, exists_as_path),
{
    let c = chars_of(sound);
    if c.len() == 0 {
        Source::Nothing
    } else if c[0] == '/' && exists_as_path {
        Source::File
    } else {
        Source::Label
    }
}

/// What was played, if anything: the file that the sound was resolved to, if
/// a player took it.
pub fn played(path: Option<String>, started: bool) -> (r: Option<String>)
    ensures
        r == if started {
            path
        } else {
            None
        },
{
    if started {
        path
    } else {
        None
    }
}

/// How paplay is asked to play a file; the file's path comes last.
pub open spec fn paplay_file(volume: u8) -> InvocationView {
    InvocationView {
        program: "paplay"@,
        args: seq![
            "--property=application.name=froklog watch"@,
            "--property=media.role=event"@,
            volume_argument(volume),
        ],
    }
}

/// How aplay is asked to play a file; the file's path comes last.
pub open spec fn aplay_file() -> InvocationView {
    InvocationView { program: "aplay"@, args: seq!["-q"@] }
}

/// What comes next in getting a file played.
#[derive(Debug)]
pub enum PlayStep {
    /// Start this player, with the file's path as its last argument.
    Ask(Invocation),
    /// Nothing more: whether a player started.
    Done(bool),
}

/// A [`PlayStep`] as contracts see it.
pub enum PlayStepView {
    Ask(InvocationView),
    Done(bool),
}

impl View for PlayStep {
    type V = PlayStepView;

    open spec fn view(&self) -> PlayStepView {
        match self {
            PlayStep::Ask(i) => PlayStepView::Ask(i@),
            PlayStep::Done(started) => PlayStepView::Done(*started),
        }
    }
}

/// What comes next, given for each player asked so far whether it started.
pub open spec fn next_step(volume: u8, answers: Seq<bool>) -> PlayStepView {
    if answers.contains(true) {
        PlayStepView::Done(true)
    } else if answers.len() == 0 {
        PlayStepView::Ask(paplay_file(volume))
    } else if answers.len() == 1 {
        PlayStepView::Ask(aplay_file())
    } else {
        PlayStepView::Done(false)
    }
}

/// Gets a file played, step by step: given for each player asked so far
/// whether it started, says which one to ask next, or how it came out.
///
/// paplay is the PipeWire/PulseAudio client every desktop ships; aplay is the
/// bare-ALSA fallback for a machine without a sound server. Naming the
/// application is what gives froklog watch its own slider in the mixer.
pub fn play_step(volume: u8, answers: &[bool]) -> (r: PlayStep)
    ensures
        r@ == next_step(volume, answers@),
        answers@.contains(true) ==> r == PlayStep::Done(true),
        answers@ == Seq::<bool>::empty() ==> (r matches PlayStep::Ask(i) && i@ == paplay_file(
            volume,
        )),
        answers@ == seq![false] ==> (r matches PlayStep::Ask(i) && i@ == aplay_file()),
        answers@.len() >= 2 && !answers@.contains(true) ==> r == PlayStep::Done(false),
{
    let n: usize = answers.len();
    let mut k: usize = 0;
    while k < n
        invariant
            k <= n == answers@.len(),
            forall|j: int| 0 <= j < k ==> !#[trigger] answers@[j],
        decreases n - k,
    {
        if answers[k] {
            assert(answers@[k as int]);
            assert(answers@.contains(true));
            return PlayStep::Done(true);
        }
        k += 1;
    }
    assert(!answers@.contains(true));
    if n == 0 {
        let mut args: Vec<String> = Vec::new();
        args.push("--property=application.name=froklog watch".to_owned());
        args.push("--property=media.role=event".to_owned());
        args.push(paplay_volume(volume));
        let paplay = Invocation { program: "paplay".to_owned(), args };
        assert(paplay@ =~= paplay_file(volume));
        PlayStep::Ask(paplay)
    } else if n == 1 {
        let mut args: Vec<String> = Vec::new();
        args.push("-q".to_owned());
        let aplay = Invocation { program: "aplay".to_owned(), args };
        assert(aplay@ =~= aplay_file());
        PlayStep::Ask(aplay)
    } else {
        PlayStep::Done(false)
    }
}

/// The answers that come in while a file is got played, if these players can
/// be started: there is no asking further once one has.
pub open spec fn answers_of(paplay_starts: bool, aplay_starts: bool) -> Seq<bool> {
    if paplay_starts {
        seq![true]
    } else {
        seq![false, aplay_starts]
    }
}

/// paplay is asked first, aplay only if paplay did not start, and a file is
/// played if either starts; so at most one of them plays it.
pub proof fn law_one_player_at_most(volume: u8, paplay_starts: bool, aplay_starts: bool)
    ensures
        ({
            let answers = answers_of(paplay_starts, aplay_starts);
            &&& next_step(volume, Seq::empty()) == PlayStepView::Ask(paplay_file(volume))
            &&& paplay_starts ==> next_step(volume, answers.take(1)) == PlayStepView::Done(true)
            &&& !paplay_starts ==> next_step(volume, answers.take(1)) == PlayStepView::Ask(
                aplay_file(),
            )
            &&& next_step(volume, answers) == PlayStepView::Done(paplay_starts || aplay_starts)
            &&& answers.len() <= 2
            &&& forall|i: int, j: int|
                0 <= i < j < answers.len() ==> !(#[trigger] answers[i] && #[trigger] answers[j])
        }),
{
    let answers = answers_of(paplay_starts, aplay_starts);
    if paplay_starts {
        assert(answers[0] && answers.take(1)[0]);
    } else {
        assert(!answers.take(1)[0]);
        if aplay_starts {
            assert(answers[1]);
        }
    }
}

/// A louder setting is never quieter; 0 is silence, 100 and above is full
/// volume.
pub proof fn law_volume_is_a_scale(a: u8, b: u8)
    requires
        a <= b,
    ensures
        paplay_level(a) <= paplay_level(b) <= 65536,
        paplay_level(0) == 0,
        b >= 100 ==> paplay_level(b) == 65536,
{
}

/// The volume is the setting's share of paplay's scale, rounded down, and is
/// written in decimal behind the argument's name.
pub proof fn law_volume_in_full(volume: u8)
    ensures
        volume <= 100 ==> 100 * paplay_level(volume) <= volume * 65536 < 100 * paplay_level(volume)
            + 100,
        volume > 100 ==> paplay_level(volume) == 65536,
        volume_argument(volume) == "--volume="@ + decimal(paplay_level(volume)),
{
}

/// What a sound's name stands for: nothing without a name; a file if it is an
/// absolute path at which there is one; a label of the package otherwise.
pub proof fn law_what_a_sound_stands_for(sound: Seq<char>, exists_as_path: bool)
    ensures
        source(sound, exists_as_path) is Nothing <==> sound.len() == 0,
        source(sound, exists_as_path) is File <==> sound.len() > 0 && sound[0] == '/'
            && exists_as_path,
        source(sound, exists_as_path) is Label <==> sound.len() > 0 && !(sound[0] == '/'
            && exists_as_path),
{
}

/// What the players are told, at every volume.
pub proof fn law_what_players_are_told(volume: u8)
    ensures
        paplay_file(volume).program == "paplay"@,
        paplay_file(volume).args.len() == 3,
        paplay_file(volume).args[0] == "--property=application.name=froklog watch"@,
        paplay_file(volume).args[1] == "--property=media.role=event"@,
        paplay_file(volume).args[2] == "--volume="@ + decimal(paplay_level(volume)),
        aplay_file().program == "aplay"@,
        aplay_file().args == seq!["-q"@],
{
}

/// What contracts see of an invocation and of a step is all there is to it.
pub proof fn law_invocations_are_seen_whole(i: Invocation, s: PlayStep)
    ensures
        i@.program == i.program@,
        i@.args.len() == i.args@.len(),
        forall|k: int| 0 <= k < i.args@.len() ==> i@.args[k] == (#[trigger] i.args@[k])@,
        s matches PlayStep::Ask(a) ==> s@ == PlayStepView::Ask(a@),
        s matches PlayStep::Done(b) ==> s@ == PlayStepView::Done(b),
{
}

/// A muted client plays nothing, whatever it is asked for; one that is not
/// muted plays what an audition would.
pub proof fn law_mute_silences_sounds(
    sound: &str,
    exists_as_path: bool,
    muted: Source,
    heard: Source,
    audition: Source,
)
    requires
        call_ensures(play, (sound, exists_as_path, true), muted),
        call_ensures(play, (sound, exists_as_path, false), heard),
        call_ensures(play_forced, (sound, exists_as_path), audition),
    ensures
        muted is Nothing,
        heard == audition,
{
}

/// What was played is the file the sound was resolved to, if a player started,
/// and nothing otherwise.
pub proof fn law_what_was_played(path: Option<String>, yes: Option<String>, no: Option<String>)
    requires
        call_ensures(played, (path, true), yes),
        call_ensures(played, (path, false), no),
    ensures
        yes == path,
        no is None,
{
}

} // verus!
