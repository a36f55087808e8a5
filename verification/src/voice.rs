//! How an alert gets spoken: by which engine, in which words, and whether it
//! may talk over another one.
use vstd::prelude::*;

use crate::audio::{capped, paplay_volume, percent, volume_argument, Invocation, InvocationView};
use crate::order::{in_order, sorted, Arrangement, Pair};
use crate::pronounce::{preview, table_of};
use crate::registry::DirEntry;
use crate::respell::respelled;
use crate::text::{
    ascii_digit, chars_of, decimal, find, find_from, is_ascii_digit, lemma_find, lemma_find_is,
    law_decimal_reads_back, matches_at, number, same_text, stands_at, text_of, to_decimal,
};
use crate::triggers::VoicePriority;

verus! {

/// How an alert gets spoken.
///
/// speech-dispatcher is always there, needs no setup and sounds like a robot,
/// because underneath it is espeak-ng, a formant synthesiser from an era when
/// that was the only thing that fit on the machine. piper is a neural voice:
/// it needs a model file on disk, and sounds like a person.
#[derive(Debug, Clone, Copy)]
pub enum Voice<'a> {
    SpeechDispatcher,
    Piper { model: &'a str },
}

/// The model of a voice that needs one.
pub open spec fn model_of(voice: Voice) -> Option<Seq<char>> {
    match voice {
        Voice::SpeechDispatcher => None,
        Voice::Piper { model } => Some(model@),
    }
}

impl<'a> Voice<'a> {
    /// The voice that the settings ask for. Without a model there is no piper.
    pub fn from_settings(engine: &'a str, model: &'a str) -> (r: Self)
        ensures
            model_of(r) == if engine@ == "piper"@ && model@.len() > 0 {
                Some(model@)
            } else {
                None
            },
    {
        if same_text(engine, "piper") && !model.is_empty() {
            Voice::Piper { model }
        } else {
            Voice::SpeechDispatcher
        }
    }
}

// ---------------------------------------------------------------------------
// What is said
// ---------------------------------------------------------------------------
/// What is to be done about a text.
#[derive(Debug)]
pub enum Speech {
    /// Nothing is said.
    Silence,
    /// speech-dispatcher is asked to say it.
    Dispatcher(Invocation),
    /// piper is to say this text, with the rules of [`speak_piper`].
    Piper { text: String, model: String },
}

/// A [`Speech`] as contracts see it.
pub enum SpeechView {
    Silence,
    Dispatcher(InvocationView),
    Piper { text: Seq<char>, model: Seq<char> },
}

impl View for Speech {
    type V = SpeechView;

    open spec fn view(&self) -> SpeechView {
        match self {
            Speech::Silence => SpeechView::Silence,
            Speech::Dispatcher(i) => SpeechView::Dispatcher(i@),
            Speech::Piper { text, model } => SpeechView::Piper { text: text@, model: model@ },
        }
    }
}

/// speech-dispatcher's name for a priority. It implements the same three-way
/// policy itself.
pub open spec fn dispatcher_priority(p: VoicePriority) -> Seq<char> {
    match p {
        VoicePriority::Emergency => "important"@,
        VoicePriority::Operational => "message"@,
        VoicePriority::Ambient => "notification"@,
    }
}

/// The volume on spd-say's scale, which runs from -100 (silent) to +100. The
/// slider maps onto the attenuation half, so that 100 stays the voice's
/// default.
pub open spec fn dispatcher_volume(volume: u8) -> int {
    percent(volume) - 100
}

/// A number that is not positive, in decimal.
pub open spec fn signed_decimal(n: int) -> Seq<char> {
    if n < 0 {
        "-"@ + decimal((-n) as nat)
    } else {
        decimal(n as nat)
    }
}

/// How spd-say is asked to say a text.
pub open spec fn spd_say(text: Seq<char>, p: VoicePriority, volume: u8) -> InvocationView {
    InvocationView {
        program: "spd-say"@,
        args: seq![
            "--priority"@,
            dispatcher_priority(p),
            "-i"@,
            signed_decimal(dispatcher_volume(volume)),
            "--application-name"@,
            "froklog-watch"@,
            "--"@,
            text,
        ],
    }
}

/// What is done about a text once its words are settled.
pub open spec fn spoken(
    said: Seq<char>,
    p: VoicePriority,
    model: Option<Seq<char>>,
    volume: u8,
) -> SpeechView {
    match model {
        None => SpeechView::Dispatcher(spd_say(said, p, volume)),
        Some(m) => SpeechView::Piper { text: said, model: m },
    }
}

/// Asks for a text, whose words are settled, to be said.
pub fn say(said: &str, priority: VoicePriority, voice: Voice, volume: u8) -> (r: Speech)
    ensures
        r@ == spoken(said@, priority, model_of(voice), volume),
{
    match voice {
        Voice::SpeechDispatcher => {
            let prio: &str = match priority {
                VoicePriority::Emergency => "important",
                VoicePriority::Operational => "message",
                VoicePriority::Ambient => "notification",
            };
            let below: u8 = 100 - capped(volume);
            let mut vol = String::new();
            if below > 0 {
                vol.append("-");
            }
            let digits = to_decimal(below as u32);
            vol.append(digits.as_str());
            let ghost v = dispatcher_volume(volume);
            assert(vol@ =~= signed_decimal(v));
            let mut args: Vec<String> = Vec::new();
            args.push("--priority".to_owned());
            args.push(prio.to_owned());
            args.push("-i".to_owned());
            args.push(vol);
            args.push("--application-name".to_owned());
            args.push("froklog-watch".to_owned());
            args.push("--".to_owned());
            args.push(said.to_owned());
            let i = Invocation { program: "spd-say".to_owned(), args };
            assert(i@ =~= spd_say(said@, priority, volume));
            Speech::Dispatcher(i)
        },
        Voice::Piper { model } => Speech::Piper { text: said.to_owned(), model: model.to_owned() },
    }
}

/// What is done about a text: an empty one is not said; another one is
/// respelled first, with the table that the file holds.
pub open spec fn speech(
    text: Seq<char>,
    p: VoicePriority,
    model: Option<Seq<char>>,
    file: Option<Seq<char>>,
    volume: u8,
) -> SpeechView {
    if text.len() == 0 {
        SpeechView::Silence
    } else {
        spoken(respelled(text, table_of(file)), p, model, volume)
    }
}

/// Speak an alert: settles its words, and the program that is to say them.
///
/// When it gets its turn is settled elsewhere. speech-dispatcher is told the
/// priority and goes by it; for piper [`speak_piper`] does. Before either,
/// alerts pass through the speaking queue, which collapses duplicates and
/// paces the rest.
pub fn speak(
    text: &str,
    priority: VoicePriority,
    voice: Voice,
    file: Option<&str>,
    volume: u8,
    muted: bool,
) -> (r: Speech)
    ensures
        r@ == if muted {
            SpeechView::Silence
        } else {
            speech(text@, priority, model_of(voice), file.deep_view(), volume)
        },
{
    if muted {
        return Speech::Silence;
    }
    speak_forced(text, priority, voice, file, volume)
}

/// Speak regardless of the mute switch (auditions). Volume still applies.
pub fn speak_forced(
    text: &str,
    priority: VoicePriority,
    voice: Voice,
    file: Option<&str>,
    volume: u8,
) -> (r: Speech)
    ensures
        r@ == speech(text@, priority, model_of(voice), file.deep_view(), volume),
{
    if text.is_empty() {
        return Speech::Silence;
    }
    let said = preview(text, file);
    say(said.as_str(), priority, voice, volume)
}

// ---------------------------------------------------------------------------
// piper
// ---------------------------------------------------------------------------
/// When a text gets its turn.
#[derive(Debug, Clone, Copy, PartialEq, Eq, Structural)]
pub enum Turn {
    /// At once; nothing else is being said.
    Now,
    /// At once, cutting off what is being said.
    Interrupt,
    /// Never: it gives way to what is being said.
    GiveWay,
    /// When what is being said has ended.
    Queue,
}

/// When a text gets its turn, by its priority and by whether something is
/// being said.
///
/// Emergency cuts off whatever is talking: an alert you need now is worth
/// losing the last one for. Ambient gives way instead: it is the trivia, and
/// it should never talk over something that mattered. Operational just queues.
pub open spec fn turn_of(busy: bool, p: VoicePriority) -> Turn {
    if !busy {
        Turn::Now
    } else {
        match p {
            VoicePriority::Emergency => Turn::Interrupt,
            VoicePriority::Ambient => Turn::GiveWay,
            VoicePriority::Operational => Turn::Queue,
        }
    }
}

/// When a text gets its turn.
pub fn turn(busy: bool, priority: VoicePriority) -> (r: Turn)
    ensures
        r == turn_of(busy, priority),
{
    if !busy {
        Turn::Now
    } else {
        match priority {
            VoicePriority::Emergency => Turn::Interrupt,
            VoicePriority::Ambient => Turn::GiveWay,
            VoicePriority::Operational => Turn::Queue,
        }
    }
}

/// An emergency is heard at once, trivia never talks over anything, and
/// nothing but an emergency cuts another alert off.
pub proof fn law_priorities(busy: bool, p: VoicePriority)
    ensures
        p is Emergency ==> turn_of(busy, p) is Now || turn_of(busy, p) is Interrupt,
        p is Ambient && busy ==> turn_of(busy, p) is GiveWay,
        turn_of(busy, p) is Interrupt ==> busy && p is Emergency,
        turn_of(busy, p) is GiveWay ==> busy && p is Ambient,
        !busy ==> turn_of(busy, p) is Now,
{
}

/// How piper is asked to say a text, and how what it makes of it is played.
#[derive(Debug)]
pub struct PiperJob {
    /// Started first. It reads the text and writes raw samples.
    pub piper: Invocation,
    /// What piper is to read.
    pub input: String,
    /// Reads the samples.
    pub player: Invocation,
}

/// A [`PiperJob`] as contracts see it.
#[verifier::ext_equal]
pub struct PiperJobView {
    pub piper: InvocationView,
    pub input: Seq<char>,
    pub player: InvocationView,
}

impl View for PiperJob {
    type V = PiperJobView;

    open spec fn view(&self) -> PiperJobView {
        PiperJobView { piper: self.piper@, input: self.input@, player: self.player@ }
    }
}

/// piper reads one line of text and writes samples at the voice's rate; they
/// are played through the same audio server the trigger sounds use.
pub open spec fn piper_job(text: Seq<char>, model: Seq<char>, rate: nat, volume: u8) -> PiperJobView {
    PiperJobView {
        piper: InvocationView {
            program: "piper"@,
            args: seq!["--model"@, model, "--output_raw"@],
        },
        input: text + "\n"@,
        player: InvocationView {
            program: "paplay"@,
            args: seq![
                "--property=application.name=froklog watch"@,
                "--raw"@,
                "--format=s16le"@,
                "--channels=1"@,
                "--rate="@ + decimal(rate),
                volume_argument(volume),
            ],
        },
    }
}

/// Puts the job together.
fn job_for(text: &str, model: &str, sidecar: Option<&str>, volume: u8) -> (r: PiperJob)
    ensures
        r@ == piper_job(text@, model@, sample_rate(sidecar.deep_view()), volume),
{
    let rate: u32 = piper_sample_rate(sidecar);
    let mut args: Vec<String> = Vec::new();
    args.push("--model".to_owned());
    args.push(model.to_owned());
    args.push("--output_raw".to_owned());
    let piper = Invocation { program: "piper".to_owned(), args };
    let mut input: String = text.to_owned();
    input.append("\n");
    let mut rate_arg: String = "--rate=".to_owned();
    let digits = to_decimal(rate);
    rate_arg.append(digits.as_str());
    let mut args: Vec<String> = Vec::new();
    args.push("--property=application.name=froklog watch".to_owned());
    args.push("--raw".to_owned());
    args.push("--format=s16le".to_owned());
    args.push("--channels=1".to_owned());
    args.push(rate_arg);
    args.push(paplay_volume(volume));
    let player = Invocation { program: "paplay".to_owned(), args };
    let job = PiperJob { piper, input, player };
    proof {
        let view = piper_job(text@, model@, rate as nat, volume);
        assert(job.piper@ =~= view.piper);
        assert(job.player@ =~= view.player);
        assert(job@ =~= view);
    }
    job
}

/// What comes next in getting a text said by piper.
#[derive(Debug)]
pub enum PiperStep {
    /// Kill the player of what is being said. Nothing is being said then,
    /// whether or not it could be killed.
    Kill,
    /// Start piper and hand it the text to read.
    StartPiper { piper: Invocation, input: String },
    /// Start the player, with piper's samples to read. Once it started, this
    /// text is what is being said.
    StartPlayer(Invocation),
    /// Nothing more: whether the text is being said.
    Done(bool),
    /// Nothing now: the text waits for what is being said to end.
    Wait,
}

/// A [`PiperStep`] as contracts see it.
pub enum PiperStepView {
    Kill,
    StartPiper { piper: InvocationView, input: Seq<char> },
    StartPlayer(InvocationView),
    Done(bool),
    Wait,
}

impl View for PiperStep {
    type V = PiperStepView;

    open spec fn view(&self) -> PiperStepView {
        match self {
            PiperStep::Kill => PiperStepView::Kill,
            PiperStep::StartPiper { piper, input } => PiperStepView::StartPiper {
                piper: piper@,
                input: input@,
            },
            PiperStep::StartPlayer(player) => PiperStepView::StartPlayer(player@),
            PiperStep::Done(said) => PiperStepView::Done(*said),
            PiperStep::Wait => PiperStepView::Wait,
        }
    }
}

/// Starting piper and then the player, given whether those asked for so far
/// started.
pub open spec fn launch_step(job: PiperJobView, started: Seq<bool>) -> PiperStepView {
    if started.len() == 0 {
        PiperStepView::StartPiper { piper: job.piper, input: job.input }
    } else if !started[0] {
        PiperStepView::Done(false)
    } else if started.len() == 1 {
        PiperStepView::StartPlayer(job.player)
    } else {
        PiperStepView::Done(started[1])
    }
}

/// What comes next, given for each step so far whether it came off.
pub open spec fn piper_step(t: Turn, job: PiperJobView, answers: Seq<bool>) -> PiperStepView {
    match t {
        Turn::GiveWay => PiperStepView::Done(false),
        Turn::Queue => PiperStepView::Wait,
        Turn::Now => launch_step(job, answers),
        Turn::Interrupt => if answers.len() == 0 {
            PiperStepView::Kill
        } else {
            launch_step(job, answers.drop_first())
        },
    }
}

/// Gets a text said by piper, step by step. Given is whether something was
/// being said when the first step was asked for, what stands in the model's
/// sidecar, and for each step so far whether it came off.
///
/// piper reads text on stdin and writes raw samples on stdout, so it pipes
/// straight into the same audio server the trigger sounds use.
pub fn speak_piper(
    text: &str,
    priority: VoicePriority,
    model: &str,
    busy: bool,
    sidecar: Option<&str>,
    volume: u8,
    answers: &[bool],
) -> (r: PiperStep)
    ensures
        r@ == piper_step(
            turn_of(busy, priority),
            piper_job(text@, model@, sample_rate(sidecar.deep_view()), volume),
            answers@,
        ),
{
    let killed: usize = match turn(busy, priority) {
        Turn::GiveWay => {
            return PiperStep::Done(false);
        },
        Turn::Queue => {
            return PiperStep::Wait;
        },
        Turn::Now => 0,
        Turn::Interrupt => 1,
    };
    let n: usize = answers.len();
    if n < killed {
        return PiperStep::Kill;
    }
    let job = job_for(text, model, sidecar, volume);
    if n == killed {
        PiperStep::StartPiper { piper: job.piper, input: job.input }
    } else if !answers[killed] {
        PiperStep::Done(false)
    } else if n == killed + 1 {
        PiperStep::StartPlayer(job.player)
    } else {
        PiperStep::Done(answers[killed + 1])
    }
}

/// What is being said.
pub enum Airing {
    /// What was being said before, if anything.
    Earlier,
    /// Nothing.
    Nothing,
    /// The new text.
    New,
}

/// What is being said after these steps.
pub open spec fn airing(t: Turn, job: PiperJobView, answers: Seq<bool>) -> Airing
    decreases answers.len(),
{
    if answers.len() == 0 {
        Airing::Earlier
    } else {
        let before = airing(t, job, answers.drop_last());
        match piper_step(t, job, answers.drop_last()) {
            PiperStepView::Kill => Airing::Nothing,
            PiperStepView::StartPlayer(_) => if answers.last() {
                Airing::New
            } else {
                before
            },
            _ => before,
        }
    }
}

/// The answers that come in during a call, if these programs can be started.
/// `killed` is how a killing comes off.
pub open spec fn answers_of_call(
    t: Turn,
    killed: bool,
    piper_starts: bool,
    player_starts: bool,
) -> Seq<bool> {
    let launched = if piper_starts {
        seq![true, player_starts]
    } else {
        seq![false]
    };
    match t {
        Turn::Now => launched,
        Turn::Interrupt => seq![killed] + launched,
        _ => Seq::empty(),
    }
}

/// How a call comes out. A text that has its turn is said exactly if both
/// piper and the player start, and then it is what is being said; one that
/// gives way is not said, and one that queues waits; both leave what is being
/// said alone.
pub proof fn law_both_programs_must_start(
    t: Turn,
    job: PiperJobView,
    killed: bool,
    piper_starts: bool,
    player_starts: bool,
)
    ensures
        ({
            let answers = answers_of_call(t, killed, piper_starts, player_starts);
            let said = (t is Now || t is Interrupt) && piper_starts && player_starts;
            &&& piper_step(t, job, answers) == if t is Queue {
                PiperStepView::Wait
            } else {
                PiperStepView::Done(said)
            }
            &&& airing(t, job, answers) is New <==> said
            &&& t is GiveWay || t is Queue ==> airing(t, job, answers) is Earlier
        }),
{
    lemma_airing(t, job, killed, piper_starts, player_starts);
}

/// An emergency that interrupts first has what is being said killed. From
/// then on that is gone, even if nothing comes of the emergency.
pub proof fn law_an_interrupted_alert_is_gone(
    job: PiperJobView,
    killed: bool,
    piper_starts: bool,
    player_starts: bool,
    steps: int,
)
    requires
        1 <= steps <= answers_of_call(Turn::Interrupt, killed, piper_starts, player_starts).len(),
    ensures
        turn_of(true, VoicePriority::Emergency) == Turn::Interrupt,
        piper_step(Turn::Interrupt, job, Seq::empty()) is Kill,
        ({
            let answers = answers_of_call(Turn::Interrupt, killed, piper_starts, player_starts);
            &&& !(airing(Turn::Interrupt, job, answers.take(steps)) is Earlier)
            &&& !(piper_step(Turn::Interrupt, job, answers.take(steps)) is Kill)
            &&& !(piper_starts && player_starts) ==> airing(Turn::Interrupt, job, answers)
                is Nothing
        }),
{
    let answers = answers_of_call(Turn::Interrupt, killed, piper_starts, player_starts);
    lemma_airing(Turn::Interrupt, job, killed, piper_starts, player_starts);
    lemma_never_earlier(job, answers.take(steps));
}

/// Once killed, what was being said does not come back.
proof fn lemma_never_earlier(job: PiperJobView, answers: Seq<bool>)
    requires
        answers.len() > 0,
    ensures
        !(airing(Turn::Interrupt, job, answers) is Earlier),
    decreases answers.len(),
{
    if answers.len() > 1 {
        lemma_never_earlier(job, answers.drop_last());
    }
}

proof fn lemma_airing(
    t: Turn,
    job: PiperJobView,
    killed: bool,
    piper_starts: bool,
    player_starts: bool,
)
    ensures
        ({
            let answers = answers_of_call(t, killed, piper_starts, player_starts);
            let said = (t is Now || t is Interrupt) && piper_starts && player_starts;
            airing(t, job, answers) == if said {
                Airing::New
            } else if t is Interrupt {
                Airing::Nothing
            } else {
                Airing::Earlier
            }
        }),
{
    reveal_with_fuel(airing, 4);
    let answers = answers_of_call(t, killed, piper_starts, player_starts);
    match t {
        Turn::Now => {
            if piper_starts {
                assert(answers.drop_last() =~= seq![true]);
                assert(answers.drop_last().drop_last() =~= Seq::<bool>::empty());
            } else {
                assert(answers.drop_last() =~= Seq::<bool>::empty());
            }
        },
        Turn::Interrupt => {
            if piper_starts {
                assert(answers.drop_last() =~= seq![killed, true]);
                assert(answers.drop_last().drop_first() =~= seq![true]);
                assert(answers.drop_last().drop_last() =~= seq![killed]);
                assert(answers.drop_last().drop_last().drop_last() =~= Seq::<bool>::empty());
            } else {
                assert(answers.drop_last() =~= seq![killed]);
                assert(answers.drop_last().drop_last() =~= Seq::<bool>::empty());
            }
            assert(seq![killed].drop_first() =~= Seq::<bool>::empty());
        },
        _ => {},
    }
}

/// While a text is being said, trivia is not said, whatever programs could be
/// started: the call comes to nothing at once.
pub proof fn law_trivia_is_not_said_over_an_alert(job: PiperJobView, answers: Seq<bool>)
    ensures
        piper_step(turn_of(true, VoicePriority::Ambient), job, answers) == PiperStepView::Done(
            false,
        ),
{
}

// ---------------------------------------------------------------------------
// Sample rates
// ---------------------------------------------------------------------------
/// The rate of a voice that does not name one.
pub const USUAL_RATE: u32 = 22050;

/// The name under which a sidecar keeps the rate.
pub open spec fn rate_tag() -> Seq<char> {
    "\"sample_rate\""@
}

/// What stands behind the first tag, up to the next one if there is one.
pub open spec fn behind_tag(s: Seq<char>) -> Option<Seq<char>> {
    match find(s, rate_tag(), 0) {
        Some(i) => {
            let rest = s.skip(i + rate_tag().len());
            match find(rest, rate_tag(), 0) {
                Some(j) => Some(rest.take(j)),
                None => Some(rest),
            }
        },
        None => None,
    }
}

/// The digits in front.
pub open spec fn leading_digits(s: Seq<char>) -> Seq<char>
    decreases s.len(),
{
    if s.len() > 0 && ascii_digit(s[0]) {
        seq![s[0]] + leading_digits(s.drop_first())
    } else {
        Seq::empty()
    }
}

/// The first run of digits; empty where there is none.
pub open spec fn first_digits(s: Seq<char>) -> Seq<char>
    decreases s.len(),
{
    if s.len() == 0 || ascii_digit(s[0]) {
        leading_digits(s)
    } else {
        first_digits(s.drop_first())
    }
}

/// The rate that a sidecar names: the first number behind the tag, if it is
/// there and fits; the usual rate otherwise.
pub open spec fn sample_rate(sidecar: Option<Seq<char>>) -> nat {
    match sidecar {
        Some(text) => match behind_tag(text) {
            Some(s) => {
                let digits = first_digits(s);
                if digits.len() > 0 && number(digits) <= u32::MAX {
                    number(digits)
                } else {
                    USUAL_RATE as nat
                }
            },
            None => USUAL_RATE as nat,
        },
        None => USUAL_RATE as nat,
    }
}

/// Digits behind a number make it no smaller.
proof fn lemma_number_grows(a: Seq<char>, b: Seq<char>)
    requires
        forall|i: int| 0 <= i < b.len() ==> ascii_digit(#[trigger] b[i]),
    ensures
        number(a + b) >= number(a),
    decreases b.len(),
{
    if b.len() == 0 {
        assert(a + b =~= a);
    } else {
        assert((a + b).drop_last() =~= a + b.drop_last());
        lemma_number_grows(a, b.drop_last());
        assert(ascii_digit(b[b.len() - 1]));
    }
}

proof fn lemma_leading_digits(s: Seq<char>)
    ensures
        forall|i: int|
            0 <= i < leading_digits(s).len() ==> ascii_digit(#[trigger] leading_digits(s)[i]),
    decreases s.len(),
{
    if s.len() > 0 && ascii_digit(s[0]) {
        lemma_leading_digits(s.drop_first());
        let rest = leading_digits(s.drop_first());
        assert forall|i: int| 0 <= i < leading_digits(s).len() implies ascii_digit(
            #[trigger] leading_digits(s)[i],
        ) by {
            if i > 0 {
                assert(leading_digits(s)[i] == rest[i - 1]);
            }
        }
    }
}

/// Reads the first number of a text, if there is one and it fits.
fn first_number(c: &[char]) -> (r: Option<u32>)
    ensures
        match r {
            Some(n) => first_digits(c@).len() > 0 && number(first_digits(c@)) == n,
            None => first_digits(c@).len() == 0 || number(first_digits(c@)) > u32::MAX,
        },
{
    let len: usize = c.len();
    let mut i: usize = 0;
    assert(c@.skip(0) =~= c@);
    while i < len && !is_ascii_digit(c[i])
        invariant
            i <= len == c@.len(),
            first_digits(c@) == first_digits(c@.skip(i as int)),
        decreases len - i,
    {
        assert(c@.skip(i as int).drop_first() =~= c@.skip(i + 1));
        i += 1;
    }
    if i == len {
        return None;
    }
    let start: usize = i;
    let ghost tail = c@.skip(start as int);
    let ghost all = leading_digits(tail);
    let mut value: u64 = 0;
    proof {
        assert(first_digits(c@) == all);
        assert(all.len() > 0);
        assert(c@.subrange(start as int, start as int) =~= Seq::<char>::empty());
        assert(all =~= c@.subrange(start as int, i as int) + leading_digits(c@.skip(i as int)));
    }
    while i < len && is_ascii_digit(c[i])
        invariant
            start <= i <= len == c@.len(),
            all.len() > 0,
            first_digits(c@) == all,
            all == c@.subrange(start as int, i as int) + leading_digits(c@.skip(i as int)),
            value == number(c@.subrange(start as int, i as int)),
            value <= u32::MAX,
        decreases len - i,
    {
        let d: u32 = c[i] as u32 - 48;
        value = value * 10 + d as u64;
        proof {
            let done = c@.subrange(start as int, i as int);
            let next = c@.subrange(start as int, i + 1);
            let rest = c@.skip(i as int);
            assert(next =~= done.push(c@[i as int]));
            assert(next.drop_last() =~= done);
            assert(rest.drop_first() =~= c@.skip(i + 1));
            assert(all =~= next + leading_digits(c@.skip(i + 1)));
            lemma_leading_digits(c@.skip(i + 1));
            lemma_number_grows(next, leading_digits(c@.skip(i + 1)));
        }
        i += 1;
        if value > u32::MAX as u64 {
            return None;
        }
    }
    proof {
        assert(leading_digits(c@.skip(i as int)) =~= Seq::<char>::empty());
        assert(all =~= c@.subrange(start as int, i as int));
    }
    Some(value as u32)
}

/// Each piper voice ships a JSON sidecar naming its sample rate; playing at
/// the wrong rate is what makes a voice sound chipmunked or drunk. Given is
/// what stands in the sidecar, if it could be read.
pub fn piper_sample_rate(sidecar: Option<&str>) -> (r: u32)
    ensures
        r == sample_rate(sidecar.deep_view()),
{
    match sidecar {
        None => USUAL_RATE,
        Some(text) => {
            let c = chars_of(text);
            let tag = chars_of("\"sample_rate\"");
            proof {
                lemma_find(text@, rate_tag(), 0);
            }
            match find_from(&c, &tag, 0) {
                None => USUAL_RATE,
                Some(i) => {
                    let n: usize = c.len();
                    assert(i + tag@.len() <= n);
                    let rest_text = text_of(&c, i + tag.len(), n);
                    let rest = chars_of(rest_text.as_str());
                    assert(rest@ =~= text@.skip(i + rate_tag().len()));
                    proof {
                        lemma_find(rest@, rate_tag(), 0);
                    }
                    let end: usize = match find_from(&rest, &tag, 0) {
                        Some(j) => j,
                        None => rest.len(),
                    };
                    let part_text = text_of(&rest, 0, end);
                    let part = chars_of(part_text.as_str());
                    proof {
                        assert(part@ =~= rest@.take(end as int));
                        assert(rest@.take(rest@.len() as int) =~= rest@);
                        assert(behind_tag(text@) == Some(part@));
                    }
                    match first_number(&part) {
                        Some(rate) => rate,
                        None => USUAL_RATE,
                    }
                },
            }
        },
    }
}

/// A run of digits ends where something else begins.
proof fn lemma_digits_then(d: Seq<char>, a: Seq<char>)
    requires
        forall|i: int| 0 <= i < d.len() ==> ascii_digit(#[trigger] d[i]),
        a.len() == 0 || !ascii_digit(a[0]),
    ensures
        leading_digits(d + a) == d,
    decreases d.len(),
{
    if d.len() == 0 {
        assert(d + a =~= a);
        assert(leading_digits(d + a) =~= d);
    } else {
        let rest = d.drop_first();
        assert((d + a).drop_first() =~= rest + a);
        assert forall|i: int| 0 <= i < rest.len() implies ascii_digit(#[trigger] rest[i]) by {
            assert(rest[i] == d[i + 1]);
        }
        lemma_digits_then(rest, a);
        assert(ascii_digit(d[0]));
        assert(leading_digits(d + a) =~= d);
    }
}

/// A voice is played at the rate its sidecar names, wherever in the sidecar
/// it stands.
pub proof fn law_named_rate_is_used(before: Seq<char>, rate: u32, after: Seq<char>)
    requires
        find(before + rate_tag(), rate_tag(), 0) == Some(before.len() as int),
        after.len() == 0 || !ascii_digit(after[0]),
    ensures
        sample_rate(Some(before + rate_tag() + ": "@ + decimal(rate as nat) + after)) == rate,
{
    reveal_strlit("\"sample_rate\"");
    reveal_strlit(": ");
    let tag = rate_tag();
    let digits = decimal(rate as nat);
    let rest = ": "@ + digits + after;
    let text = before + tag + ": "@ + digits + after;
    let n = before.len() as int;
    law_decimal_reads_back(rate as nat);
    // The first tag is the one in front of the rate.
    assert(text.subrange(n, n + tag.len()) =~= tag);
    lemma_find(before + tag, tag, 0);
    assert forall|j: int| 0 <= j < n implies !stands_at(text, tag, j) by {
        assert(text.subrange(j, j + tag.len()) =~= (before + tag).subrange(j, j + tag.len()));
        assert(!stands_at(before + tag, tag, j));
    }
    lemma_find_is(text, tag, 0, n);
    assert(text.skip(n + tag.len()) =~= rest);
    // Another one can only stand behind it.
    lemma_find(rest, tag, 0);
    let m = 2 + digits.len() as int;
    if let Some(j) = find(rest, tag, 0) {
        assert(rest.subrange(j, j + tag.len())[0] == rest[j]);
        if 2 <= j < m {
            assert(rest[j] == digits[j - 2]);
        }
        lemma_rate_behind_colon(rate, after.take(j - m));
        assert(rest.take(j) =~= ": "@ + digits + after.take(j - m));
    } else {
        lemma_rate_behind_colon(rate, after);
    }
}

proof fn lemma_rate_behind_colon(rate: u32, after: Seq<char>)
    requires
        after.len() == 0 || !ascii_digit(after[0]),
    ensures
        first_digits(": "@ + decimal(rate as nat) + after) == decimal(rate as nat),
{
    reveal_strlit(": ");
    let digits = decimal(rate as nat);
    law_decimal_reads_back(rate as nat);
    lemma_digits_then(digits, after);
    let s = ": "@ + digits + after;
    assert(s.drop_first().drop_first() =~= digits + after);
    assert(ascii_digit(digits[0]));
    reveal_with_fuel(first_digits, 3);
}

// ---------------------------------------------------------------------------
// Installed voices
// ---------------------------------------------------------------------------
/// The voice that a file is: its name without the extension, and its path.
pub open spec fn voice_of(file: Pair) -> Option<Pair> {
    let n = file.0.len() as int;
    if n > 5 && file.0.skip(n - 5) == ".onnx"@ {
        Some((file.0.take(n - 5), file.1))
    } else {
        None
    }
}

/// The voices among the files, in the order of the files.
pub open spec fn voices_among(files: Seq<Pair>) -> Seq<Pair> {
    files.filter_map(|f: Pair| voice_of(f))
}

/// The name of a voice file without its extension, if it is one.
fn voice_name(file: &str) -> (r: Option<String>)
    ensures
        r is Some == voice_of((file@, Seq::empty())) is Some,
        r is Some ==> r->0@ == (voice_of((file@, Seq::empty()))->0).0,
{
    let c = chars_of(file);
    let extension = chars_of(".onnx");
    let n: usize = c.len();
    proof {
        reveal_strlit(".onnx");
        assert(n > 5 ==> file@.subrange(n - 5, n as int) =~= file@.skip(n - 5));
    }
    if n > 5 && matches_at(&c, &extension, n - 5) {
        let stem = text_of(&c, 0, n - 5);
        assert(stem@ =~= file@.take(n - 5));
        Some(stem)
    } else {
        None
    }
}

/// Every piper voice among the files of the voices' directory, newest naming
/// scheme or not: its name and its path, sorted by name.
///
/// A voice is just a pair of files, so "install a voice" means dropping an
/// .onnx and its .json into this directory; no code change, no rebuild. The
/// picker lists whatever is there.
pub fn installed_voices(files: &[DirEntry]) -> (r: Vec<(String, String)>)
    ensures
        in_order(Arrangement::Dictionary, r.deep_view()),
        r.deep_view().to_multiset() == voices_among(files.deep_view()).to_multiset(),
{
    let mut out: Vec<(String, String)> = Vec::new();
    let ghost all = files.deep_view();
    let ghost f = |p: Pair| voice_of(p);
    let mut i: usize = 0;
    proof {
        assert(all.take(0) =~= Seq::<Pair>::empty());
        reveal(Seq::filter_map);
        assert(out.deep_view() =~= voices_among(all.take(0)));
    }
    while i < files.len()
        invariant
            i <= files@.len(),
            all == files.deep_view(),
            f == (|p: Pair| voice_of(p)),
            out.deep_view() == voices_among(all.take(i as int)),
        decreases files@.len() - i,
    {
        let ghost was = out.deep_view();
        proof {
            all.lemma_filter_map_take_succ(f, i as int);
            assert(all[i as int] == files@[i as int].deep_view());
        }
        match voice_name(files[i].name.as_str()) {
            Some(stem) => {
                let pair: (String, String) = (stem, files[i].path.clone());
                let ghost v = pair.deep_view();
                out.push(pair);
                assert(out.deep_view() =~= was.push(v));
                assert(out.deep_view() =~= voices_among(all.take(i + 1)));
            },
            None => {
                assert(out.deep_view() =~= voices_among(all.take(i + 1)));
            },
        }
        i += 1;
    }
    assert(all.take(all.len() as int) =~= all);
    sorted(Arrangement::Dictionary, out)
}

// ---------------------------------------------------------------------------
// What is handed on
// ---------------------------------------------------------------------------
/// Whatever the voice, the words handed on are the text with the file's table
/// applied: the last argument of spd-say, and what piper is to say. Both
/// engines are handed the same words.
pub proof fn law_both_engines_are_handed_the_same_words(
    text: Seq<char>,
    p: VoicePriority,
    model: Seq<char>,
    file: Option<Seq<char>>,
    volume: u8,
)
    requires
        text.len() > 0,
    ensures
        speech(text, p, None, file, volume) matches SpeechView::Dispatcher(i) && i.args.len() > 0
            && i.args.last() == respelled(text, table_of(file)),
        speech(text, p, Some(model), file, volume) == (SpeechView::Piper {
            text: respelled(text, table_of(file)),
            model,
        }),
{
}

/// A text without words is not said, whatever the voice.
pub proof fn law_nothing_is_said_without_words(
    p: VoicePriority,
    model: Option<Seq<char>>,
    file: Option<Seq<char>>,
    volume: u8,
)
    ensures
        speech(Seq::empty(), p, model, file, volume) is Silence,
{
}

/// What spd-say is told: the priority by its own name, the volume as how far
/// it is below full, who is speaking, and the words behind a double hyphen.
pub proof fn law_what_spd_say_is_told(text: Seq<char>, p: VoicePriority, volume: u8)
    ensures
        ({
            let i = spd_say(text, p, volume);
            &&& i.program == "spd-say"@
            &&& i.args.len() == 8
            &&& i.args[0] == "--priority"@
            &&& p is Emergency ==> i.args[1] == "important"@
            &&& p is Operational ==> i.args[1] == "message"@
            &&& p is Ambient ==> i.args[1] == "notification"@
            &&& i.args[2] == "-i"@
            &&& volume >= 100 ==> i.args[3] == decimal(0)
            &&& volume < 100 ==> i.args[3] == "-"@ + decimal((100 - volume) as nat)
            &&& i.args[4] == "--application-name"@
            &&& i.args[5] == "froklog-watch"@
            &&& i.args[6] == "--"@
            &&& i.args[7] == text
        }),
{
}

/// What the dispatcher is asked for is what spd-say is told of the respelled
/// text, at the alert's own priority and at the volume.
pub proof fn law_the_dispatcher_is_asked_in_full(
    text: Seq<char>,
    p: VoicePriority,
    file: Option<Seq<char>>,
    volume: u8,
)
    requires
        text.len() > 0,
    ensures
        speech(text, p, None, file, volume) == SpeechView::Dispatcher(
            spd_say(respelled(text, table_of(file)), p, volume),
        ),
{
}

/// What piper and its player are told.
pub proof fn law_what_piper_is_told(text: Seq<char>, model: Seq<char>, rate: nat, volume: u8)
    ensures
        ({
            let job = piper_job(text, model, rate, volume);
            &&& job.piper.program == "piper"@
            &&& job.piper.args == seq!["--model"@, model, "--output_raw"@]
            &&& job.input == text + "\n"@
            &&& job.player.program == "paplay"@
            &&& job.player.args.len() == 6
            &&& job.player.args[0] == "--property=application.name=froklog watch"@
            &&& job.player.args[1] == "--raw"@
            &&& job.player.args[2] == "--format=s16le"@
            &&& job.player.args[3] == "--channels=1"@
            &&& job.player.args[4] == "--rate="@ + decimal(rate)
            &&& job.player.args[5] == volume_argument(volume)
        }),
{
}

/// While something is being said, an emergency interrupts it, trivia gives
/// way, and anything else queues.
pub proof fn law_turns_in_full(p: VoicePriority)
    ensures
        p is Emergency ==> turn_of(true, p) is Interrupt,
        p is Operational ==> turn_of(true, p) is Queue,
        p is Ambient ==> turn_of(true, p) is GiveWay,
        turn_of(false, p) is Now,
{
}

/// What has its turn is said in the same way, whether or not it interrupted:
/// piper is started first, and the player once piper was.
pub proof fn law_interrupting_only_adds_the_kill(
    job: PiperJobView,
    killed: bool,
    started: Seq<bool>,
)
    ensures
        piper_step(Turn::Interrupt, job, seq![killed] + started) == piper_step(
            Turn::Now,
            job,
            started,
        ),
        piper_step(Turn::Now, job, Seq::empty()) == (PiperStepView::StartPiper {
            piper: job.piper,
            input: job.input,
        }),
        piper_step(Turn::Now, job, seq![true]) == PiperStepView::StartPlayer(job.player),
{
    assert((seq![killed] + started).drop_first() =~= started);
}

/// What contracts see of a speech, of a job and of a step is all there is to
/// it.
pub proof fn law_speech_is_seen_whole(s: Speech, job: PiperJob, step: PiperStep)
    ensures
        s is Silence ==> s@ is Silence,
        s matches Speech::Dispatcher(i) ==> s@ == SpeechView::Dispatcher(i@),
        s matches Speech::Piper { text, model } ==> s@ == (SpeechView::Piper {
            text: text@,
            model: model@,
        }),
        job@.piper == job.piper@,
        job@.input == job.input@,
        job@.player == job.player@,
        step is Kill ==> step@ is Kill,
        step is Wait ==> step@ is Wait,
        step matches PiperStep::Done(said) ==> step@ == PiperStepView::Done(said),
        step matches PiperStep::StartPlayer(player) ==> step@ == PiperStepView::StartPlayer(player@),
        step matches PiperStep::StartPiper { piper, input } ==> step@ == (PiperStepView::StartPiper {
            piper: piper@,
            input: input@,
        }),
{
}

/// The rate is the first number behind its name, whatever else than digits and
/// quotes stands between them; one too large for a rate gives the usual one.
pub proof fn law_the_first_number_is_the_rate(
    before: Seq<char>,
    gap: Seq<char>,
    digits: Seq<char>,
    after: Seq<char>,
)
    requires
        find(before + "\"sample_rate\""@, "\"sample_rate\""@, 0) == Some(before.len() as int),
        forall|i: int|
            0 <= i < gap.len() ==> !('0' <= #[trigger] gap[i] && gap[i] <= '9') && gap[i] != '"',
        digits.len() > 0,
        forall|i: int| 0 <= i < digits.len() ==> '0' <= #[trigger] digits[i] && digits[i] <= '9',
        after.len() == 0 || !('0' <= after[0] && after[0] <= '9'),
    ensures
        sample_rate(Some(before + "\"sample_rate\""@ + gap + digits + after)) == if number(digits)
            <= 4294967295 {
            number(digits)
        } else {
            22050
        },
{
    reveal_strlit("\"sample_rate\"");
    let tag = rate_tag();
    let rest = gap + digits + after;
    let text = before + tag + gap + digits + after;
    let n = before.len() as int;
    assert(text.subrange(n, n + tag.len()) =~= tag);
    lemma_find(before + tag, tag, 0);
    assert forall|j: int| 0 <= j < n implies !stands_at(text, tag, j) by {
        assert(text.subrange(j, j + tag.len()) =~= (before + tag).subrange(j, j + tag.len()));
        assert(!stands_at(before + tag, tag, j));
    }
    lemma_find_is(text, tag, 0, n);
    assert(text.skip(n + tag.len()) =~= rest);
    lemma_find(rest, tag, 0);
    let g = gap.len() as int;
    let m = g + digits.len() as int;
    if let Some(j) = find(rest, tag, 0) {
        assert(rest.subrange(j, j + tag.len())[0] == rest[j]);
        if j < g {
            assert(rest[j] == gap[j]);
        } else if j < m {
            assert(rest[j] == digits[j - g]);
        }
        lemma_digits_behind(gap, digits, after.take(j - m));
        assert(rest.take(j) =~= gap + digits + after.take(j - m));
    } else {
        lemma_digits_behind(gap, digits, after);
    }
}

proof fn lemma_digits_behind(gap: Seq<char>, digits: Seq<char>, after: Seq<char>)
    requires
        forall|i: int| 0 <= i < gap.len() ==> !('0' <= #[trigger] gap[i] && gap[i] <= '9'),
        digits.len() > 0,
        forall|i: int| 0 <= i < digits.len() ==> '0' <= #[trigger] digits[i] && digits[i] <= '9',
        after.len() == 0 || !ascii_digit(after[0]),
    ensures
        first_digits(gap + digits + after) == digits,
    decreases gap.len(),
{
    if gap.len() == 0 {
        assert forall|i: int| 0 <= i < digits.len() implies ascii_digit(#[trigger] digits[i]) by {}
        lemma_digits_then(digits, after);
        assert(gap + digits + after =~= digits + after);
        assert(ascii_digit(digits[0]));
    } else {
        let s = gap + digits + after;
        let rest = gap.drop_first();
        assert(s.drop_first() =~= rest + digits + after);
        assert(!('0' <= gap[0] && gap[0] <= '9'));
        assert forall|i: int| 0 <= i < rest.len() implies !('0' <= #[trigger] rest[i] && rest[i]
            <= '9') by {
            assert(rest[i] == gap[i + 1]);
        }
        lemma_digits_behind(rest, digits, after);
    }
}

/// Without a sidecar, without the rate's name in it, or without a digit behind
/// the name, the rate is the usual one.
pub proof fn law_the_usual_rate(before: Seq<char>, rest: Seq<char>)
    ensures
        sample_rate(None) == 22050,
        (forall|j: int| 0 <= j ==> !stands_at(before, "\"sample_rate\""@, j)) ==> sample_rate(
            Some(before),
        ) == 22050,
        find(before + "\"sample_rate\""@ + rest, "\"sample_rate\""@, 0) == Some(
            before.len() as int,
        ) && (forall|i: int|
            0 <= i < rest.len() ==> !('0' <= #[trigger] rest[i] && rest[i] <= '9')) ==> sample_rate(
            Some(before + "\"sample_rate\""@ + rest),
        ) == 22050,
{
    let tag = rate_tag();
    lemma_find(before, tag, 0);
    let text = before + tag + rest;
    assert(text.skip((before.len() + tag.len()) as int) =~= rest);
    lemma_find(rest, tag, 0);
    if forall|i: int| 0 <= i < rest.len() ==> !('0' <= #[trigger] rest[i] && rest[i] <= '9') {
        lemma_no_digits(rest);
        if let Some(j) = find(rest, tag, 0) {
            let part = rest.take(j);
            assert forall|i: int| 0 <= i < part.len() implies !('0' <= #[trigger] part[i] && part[i]
                <= '9') by {
                assert(part[i] == rest[i]);
            }
            lemma_no_digits(part);
        }
    }
}

proof fn lemma_no_digits(s: Seq<char>)
    requires
        forall|i: int| 0 <= i < s.len() ==> !('0' <= #[trigger] s[i] && s[i] <= '9'),
    ensures
        first_digits(s).len() == 0,
    decreases s.len(),
{
    if s.len() > 0 {
        let rest = s.drop_first();
        assert(!('0' <= s[0] && s[0] <= '9'));
        assert forall|i: int| 0 <= i < rest.len() implies !('0' <= #[trigger] rest[i] && rest[i]
            <= '9') by {
            assert(rest[i] == s[i + 1]);
        }
        lemma_no_digits(rest);
    }
}

/// A file is a voice exactly if its name is something and ".onnx"; the voice
/// goes by that something, and lies where the file does.
pub proof fn law_what_a_voice_file_is(name: Seq<char>, stem: Seq<char>, path: Seq<char>)
    ensures
        stem.len() > 0 ==> voice_of((stem + ".onnx"@, path)) == Some((stem, path)),
        voice_of((name, path)) matches Some(voice) ==> voice.1 == path && voice.0.len() > 0 && name
            == voice.0 + ".onnx"@,
{
    reveal_strlit(".onnx");
    let n = name.len() as int;
    let whole = stem + ".onnx"@;
    assert(whole.skip(whole.len() - 5) =~= ".onnx"@);
    assert(whole.take(whole.len() - 5) =~= stem);
    if voice_of((name, path)) is Some {
        assert(name =~= name.take(n - 5) + name.skip(n - 5));
    }
}

/// Every voice file is listed, and nothing else: each file adds what it is by
/// itself.
pub proof fn law_every_voice_is_listed(files: Seq<Pair>, file: Pair)
    ensures
        voices_among(Seq::empty()).len() == 0,
        voices_among(files.push(file)) == match voice_of(file) {
            Some(voice) => voices_among(files).push(voice),
            None => voices_among(files),
        },
{
    reveal(Seq::filter_map);
    let all = files.push(file);
    assert(all.drop_last() =~= files);
    assert(voices_among(all) =~= match voice_of(file) {
        Some(voice) => voices_among(files).push(voice),
        None => voices_among(files),
    });
}

/// A voice has a model exactly if it is piper's, and it is the one given.
pub proof fn law_only_piper_has_a_model(voice: Voice)
    ensures
        voice is SpeechDispatcher ==> model_of(voice) is None,
        voice matches Voice::Piper { model } ==> model_of(voice) == Some(model@),
{
}

/// A muted client says nothing, whatever it is asked for; one that is not
/// muted says what an audition would.
pub proof fn law_mute_silences_words(
    text: &str,
    p: VoicePriority,
    voice: Voice,
    file: Option<&str>,
    volume: u8,
    muted: Speech,
    heard: Speech,
    audition: Speech,
)
    requires
        call_ensures(speak, (text, p, voice, file, volume, true), muted),
        call_ensures(speak, (text, p, voice, file, volume, false), heard),
        call_ensures(speak_forced, (text, p, voice, file, volume), audition),
    ensures
        muted@ is Silence,
        heard@ == audition@,
{
}

/// piper speaks exactly if it is asked for and there is a model, and then with
/// that model.
pub proof fn law_when_piper_speaks(engine: &str, model: &str, r: Voice)
    requires
        call_ensures(Voice::from_settings, (engine, model), r),
    ensures
        r is Piper <==> engine@ == "piper"@ && model@.len() > 0,
        r matches Voice::Piper { model: m } ==> m@ == model@,
{
}

} // verus!
