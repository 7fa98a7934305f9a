//! The client of the voice engine's sidecar process: when it may be started,
//! when it is stopped, what is told of its failures, and which texts it has
//! been sent.
use vstd::prelude::*;

use crate::redact::{sanitize_sidecar_error, secret_variants, MIN_SECRET_CHARS};
use crate::redact;
use crate::sidecar::url_of;
use crate::text::{char_count, owned, push_text};
use crate::text;

verus! {

/// Why a line could not be spoken by the engine.
#[derive(Debug, PartialEq, Eq)]
pub enum TtsError {
    NotImplemented,
    SidecarStart(String),
    Http(String),
    VoiceRefMissing(String),
}

/// What is said to the user of a failure.
pub open spec fn tts_error_text(e: TtsError) -> Seq<char> {
    match e {
        TtsError::NotImplemented => "Irodori-TTS は未実装です (M4c の後続 Phase で実装)"@,
        TtsError::SidecarStart(m) => "Irodori サイドカーの起動に失敗しました: "@ + m@,
        TtsError::Http(m) => "HTTP 通信に失敗しました: "@ + m@,
        TtsError::VoiceRefMissing(slot) => "参照音声 (slot="@ + slot@
            + ") が未生成です。設定パネルから生成してください"@,
    }
}

impl TtsError {
    /// What is said to the user.
    pub fn message(&self) -> (r: String)
        ensures
            r@ == tts_error_text(*self),
    {
        match self {
            TtsError::NotImplemented => owned(
                "Irodori-TTS は未実装です (M4c の後続 Phase で実装)",
            ),
            TtsError::SidecarStart(m) => {
                let mut out = owned("Irodori サイドカーの起動に失敗しました: ");
                push_text(&mut out, m.as_str());
                out
            },
            TtsError::Http(m) => {
                let mut out = owned("HTTP 通信に失敗しました: ");
                push_text(&mut out, m.as_str());
                out
            },
            TtsError::VoiceRefMissing(slot) => {
                let mut out = owned("参照音声 (slot=");
                push_text(&mut out, slot.as_str());
                push_text(
                    &mut out,
                    ") が未生成です。設定パネルから生成してください",
                );
                out
            },
        }
    }
}

/// How many sent texts are remembered: the text and the caption of the last
/// eight requests.
pub const RECENT_SECRETS: usize = 16;

/// How long nothing is said of a further failure after one was told.
pub const NOTIFY_COOLDOWN_SECS: i64 = 300;

pub const DISABLED_TEXT: &'static str =
    "直近の失敗により一時停止中です (cooldown)。voicevox 経路で発話します";

pub const BUSY_TEXT: &'static str =
    "Irodori ランタイムの導入または更新が進行中です。voicevox 経路で発話します";

pub const BUSY_MID_LAUNCH_TEXT: &'static str =
    "起動の途中で Irodori ランタイムの導入または更新が始まったため、起動したサイドカーを止めました。voicevox 経路で発話します";

/// The sidecar has been idle for long enough to be stopped. A sidecar that was
/// never used, or is not running, is not idle.
pub open spec fn is_idle(has_port: bool, last_used: i64, now: i64, idle_secs: i64) -> bool {
    &&& has_port
    &&& last_used != 0
    &&& sat_i64(now - last_used) >= idle_secs
}

/// A whole number held to the range of an `i64`.
pub open spec fn sat_i64(n: int) -> int {
    if n > i64::MAX {
        i64::MAX as int
    } else if n < i64::MIN {
        i64::MIN as int
    } else {
        n
    }
}

/// The difference of two numbers, held to the range of an `i64`.
fn saturating_difference(a: i64, b: i64) -> (r: i64)
    ensures
        r as int == sat_i64(a - b),
{
    let d: i128 = a as i128 - b as i128;
    if d > i64::MAX as i128 {
        i64::MAX
    } else if d < i64::MIN as i128 {
        i64::MIN
    } else {
        d as i64
    }
}

/// The sum of two numbers, held to the range of an `i64`.
fn saturating_sum(a: i64, b: i64) -> (r: i64)
    ensures
        r as int == sat_i64(a + b),
{
    let d: i128 = a as i128 + b as i128;
    if d > i64::MAX as i128 {
        i64::MAX
    } else if d < i64::MIN as i128 {
        i64::MIN
    } else {
        d as i64
    }
}

/// Whether the sidecar has been idle for long enough to be stopped.
pub fn should_shutdown_for_idle(has_port: bool, last_used: i64, now: i64, idle_secs: i64) -> (r:
    bool)
    ensures
        r == is_idle(has_port, last_used, now, idle_secs),
{
    if !has_port {
        return false;
    }
    if last_used == 0 {
        return false;
    }
    saturating_difference(now, last_used) >= idle_secs
}

/// The texts that are long enough to be masked.
pub open spec fn worth_masking(t: Seq<Seq<char>>) -> Seq<Seq<char>> {
    t.filter(|s: Seq<char>| s.len() >= MIN_SECRET_CHARS)
}

/// The last `n` of a sequence.
pub open spec fn last_of(s: Seq<Seq<char>>, n: int) -> Seq<Seq<char>> {
    if s.len() <= n {
        s
    } else {
        s.skip(s.len() - n)
    }
}

/// What has to happen before a request can be sent.
#[derive(Debug, PartialEq, Eq)]
pub enum EnsureStep {
    /// A sidecar is running on this port.
    Running(u16),
    /// No sidecar may be started now.
    Refused(TtsError),
    /// A sidecar has to be started.
    Start,
}

/// What becomes of a sidecar that has just been started.
#[derive(Clone, Copy, Debug, PartialEq, Eq, Structural)]
pub enum Adoption {
    /// It is the one that is used, on this port.
    Stored(u16),
    /// Another one was there first, on this port; the new one is stopped.
    Redundant(u16),
    /// An installation or update began meanwhile; the new one is stopped.
    Busy,
}

/// What the client knows. Times are seconds since the epoch; zero stands for
/// never.
#[derive(Debug)]
pub struct IrodoriClient {
    port: Option<u16>,
    last_used: i64,
    last_notified_unavailable: i64,
    disable_until: i64,
    recent_secrets: Vec<String>,
}

/// What an `IrodoriClient` knows.
pub struct Client {
    pub port: Option<u16>,
    pub last_used: i64,
    pub last_notified_unavailable: i64,
    pub disable_until: i64,
    pub recent: Seq<Seq<char>>,
}

impl View for IrodoriClient {
    type V = Client;

    closed spec fn view(&self) -> Client {
        Client {
            port: self.port,
            last_used: self.last_used,
            last_notified_unavailable: self.last_notified_unavailable,
            disable_until: self.disable_until,
            recent: text::texts(self.recent_secrets@),
        }
    }
}

/// A failure was told less than the cooldown ago. A time that lies in the
/// future, after the clock was set back, does not count.
pub open spec fn told_recently(last: i64, now: i64) -> bool {
    last != 0 && last <= now && now - last < NOTIFY_COOLDOWN_SECS
}

/// Starting is barred at this time.
pub open spec fn is_disabled(until: i64, now: i64) -> bool {
    until > 0 && now < until
}

impl IrodoriClient {
    /// A client that knows of no sidecar.
    pub fn new() -> (r: Self)
        ensures
            r@ == (Client {
                port: None,
                last_used: 0,
                last_notified_unavailable: 0,
                disable_until: 0,
                recent: Seq::empty(),
            }),
    {
        let r = IrodoriClient {
            port: None,
            last_used: 0,
            last_notified_unavailable: 0,
            disable_until: 0,
            recent_secrets: Vec::new(),
        };
        assert(text::texts(r.recent_secrets@) =~= Seq::<Seq<char>>::empty());
        r
    }

    /// The port of the sidecar that is running.
    pub fn current_port(&self) -> (r: Option<u16>)
        ensures
            r == self@.port,
    {
        self.port
    }

    /// The texts that were sent recently, oldest first.
    pub fn recent_secrets(&self) -> (r: &Vec<String>)
        ensures
            text::texts(r@) == self@.recent,
    {
        &self.recent_secrets
    }

    /// Bars starting a sidecar for `secs` seconds. A bar that lasts longer stays.
    pub fn disable_for(&mut self, now: i64, secs: i64)
        ensures
            final(self)@ == (Client {
                disable_until: (if sat_i64(now + secs) > old(self)@.disable_until {
                    sat_i64(now + secs) as i64
                } else {
                    old(self)@.disable_until
                }),
                ..old(self)@
            }),
    {
        let until = saturating_sum(now, secs);
        if until > self.disable_until {
            self.disable_until = until;
        }
    }

    /// Whether starting is barred.
    pub fn currently_disabled(&self, now: i64) -> (r: bool)
        ensures
            r == is_disabled(self@.disable_until, now),
    {
        self.disable_until > 0 && now < self.disable_until
    }

    /// Notes that the sidecar was used.
    pub fn touch_last_used(&mut self, now: i64)
        ensures
            final(self)@ == (Client { last_used: now, ..old(self)@ }),
    {
        self.last_used = now;
    }

    /// Whether a failure is to be told now. If so it counts as told: within
    /// the cooldown the answer is then no.
    pub fn should_notify_unavailable_at(&mut self, now: i64) -> (r: bool)
        ensures
            r == !told_recently(old(self)@.last_notified_unavailable, now),
            final(self)@ == (if r {
                Client { last_notified_unavailable: now, ..old(self)@ }
            } else {
                old(self)@
            }),
    {
        let last = self.last_notified_unavailable;
        if last != 0 && last <= now && saturating_difference(now, last) < NOTIFY_COOLDOWN_SECS {
            return false;
        }
        self.last_notified_unavailable = now;
        true
    }

    /// Remembers the texts that are about to be sent, those long enough to be
    /// masked; the oldest are forgotten.
    pub fn remember_secrets(&mut self, sent: &Vec<&str>)
        ensures
            final(self)@ == remembering(old(self)@, text::str_texts(sent@)),
    {
        let ghost before = self@.recent;
        let ghost t = text::str_texts(sent@);
        let mut i: usize = 0;
        proof {
            reveal(Seq::filter);
            assert(t.take(0) =~= Seq::<Seq<char>>::empty());
            assert(before + worth_masking(t.take(0)) =~= before);
        }
        while i < sent.len()
            invariant
                i <= sent@.len(),
                t == text::str_texts(sent@),
                self@ == (Client { recent: self@.recent, ..old(self)@ }),
                self@.recent == before + worth_masking(t.take(i as int)),
            decreases sent@.len() - i,
        {
            let ghost prior = self@.recent;
            assert(t[i as int] == sent@[i as int]@);
            proof {
                reveal(Seq::filter);
                assert(t.take(i + 1).drop_last() =~= t.take(i as int));
            }
            if char_count(sent[i]) >= MIN_SECRET_CHARS {
                self.recent_secrets.push(owned(sent[i]));
                assert(text::texts(self.recent_secrets@) =~= prior.push(t[i as int]));
                assert(self@.recent =~= before + worth_masking(t.take(i + 1)));
            }
            i += 1;
        }
        assert(t.take(i as int) =~= t);
        let ghost all = self@.recent;
        while self.recent_secrets.len() > RECENT_SECRETS
            invariant
                self@ == (Client { recent: self@.recent, ..old(self)@ }),
                last_of(all, RECENT_SECRETS as int) == last_of(self@.recent, RECENT_SECRETS as int),
                self@.recent.len() == self.recent_secrets@.len(),
            decreases self.recent_secrets@.len(),
        {
            let ghost prior = self@.recent;
            self.recent_secrets.remove(0);
            assert(self@.recent =~= prior.skip(1));
            assert(last_of(prior, RECENT_SECRETS as int) =~= last_of(
                self@.recent,
                RECENT_SECRETS as int,
            ));
        }
    }

    /// What has to happen before a request can be sent.
    pub fn ensure_sidecar_running(&self, now: i64, busy: bool) -> (r: EnsureStep)
        ensures
            ensured(self@, now, busy, r),
    {
        match self.port {
            Some(p) => EnsureStep::Running(p),
            None => {
                if self.currently_disabled(now) {
                    return EnsureStep::Refused(TtsError::SidecarStart(owned(DISABLED_TEXT)));
                }
                if busy {
                    return EnsureStep::Refused(TtsError::SidecarStart(owned(BUSY_TEXT)));
                }
                EnsureStep::Start
            },
        }
    }

    /// Decides whether a sidecar that has just been started is used. Whether
    /// an installation or update is under way is asked again here: one that
    /// began while the sidecar was starting would otherwise be missed.
    pub fn adopt_sidecar(&mut self, port: u16, busy: bool) -> (r: Adoption)
        ensures
            (match old(self)@.port {
                Some(existing) => r == Adoption::Redundant(existing) && final(self)@ == old(self)@,
                None => if busy {
                    r == Adoption::Busy && final(self)@ == old(self)@
                } else {
                    r == Adoption::Stored(port) && final(self)@ == (Client {
                        port: Some(port),
                        ..old(self)@
                    })
                },
            }),
    {
        match self.port {
            Some(existing) => Adoption::Redundant(existing),
            None => {
                if busy {
                    Adoption::Busy
                } else {
                    self.port = Some(port);
                    Adoption::Stored(port)
                }
            },
        }
    }

    /// Forgets the sidecar, which is then to be stopped, and that it was used.
    pub fn shutdown(&mut self) -> (r: Option<u16>)
        ensures
            r == old(self)@.port,
            final(self)@ == (Client { port: None, last_used: 0, ..old(self)@ }),
    {
        let port = self.port;
        self.port = None;
        self.last_used = 0;
        port
    }

    /// Forgets the sidecar, which is then to be stopped, if it has been idle
    /// for long enough.
    pub fn shutdown_if_idle(&mut self, now: i64, idle_secs: i64) -> (r: Option<u16>)
        ensures
            ({
                let idle = is_idle(old(self)@.port is Some, old(self)@.last_used, now, idle_secs);
                &&& r == (if idle {
                    old(self)@.port
                } else {
                    None
                })
                &&& final(self)@ == (if idle {
                    Client { port: None, last_used: 0, ..old(self)@ }
                } else {
                    old(self)@
                })
            }),
    {
        if !should_shutdown_for_idle(self.port.is_some(), self.last_used, now, idle_secs) {
            return None;
        }
        self.shutdown()
    }
}

/// A request that a text be spoken. The speed is given by the bits of a number of
/// double precision.
#[derive(Debug, PartialEq, Eq)]
pub struct SpeechRequest {
    pub model: String,
    pub input: String,
    pub voice: String,
    pub response_format: String,
    pub speed: u64,
    pub caption: Option<String>,
}

/// A request that a voice be made after a caption.
#[derive(Debug, PartialEq, Eq)]
pub struct VoiceRefRequest {
    pub caption: String,
    pub out_path: String,
}

pub const SPEECH_MODEL: &'static str = "irodori-voice-clone";

pub const SPEECH_FORMAT: &'static str = "wav";

pub const SPEECH_PATH: &'static str = "/v1/audio/speech";

pub const VOICE_REF_PATH: &'static str = "/v1/voice_ref/generate";

/// The address on this machine.
pub open spec fn local_url(port: u16, path: Seq<char>) -> Seq<char> {
    "http://127.0.0.1:"@ + text::decimal(port as nat) + path
}

/// What is sent with a request to speak: the text, and its caption, empty where
/// there is none.
pub open spec fn sent_with_speech(input: Seq<char>, caption: Option<Seq<char>>) -> Seq<Seq<char>> {
    seq![
        input,
        match caption {
            Some(c) => c,
            None => ""@,
        },
    ]
}

/// A borrowed text that may be absent.
pub open spec fn opt_str(o: Option<&str>) -> Option<Seq<char>> {
    match o {
        Some(s) => Some(s@),
        None => None,
    }
}

/// What has to happen before a request can be sent: nothing where a sidecar is
/// running; else one has to be started, unless that is barred or the engine is
/// being installed or updated.
pub open spec fn ensured(c: Client, now: i64, busy: bool, r: EnsureStep) -> bool {
    match c.port {
        Some(p) => r == EnsureStep::Running(p),
        None => if is_disabled(c.disable_until, now) {
            r matches EnsureStep::Refused(TtsError::SidecarStart(m)) && m@ == DISABLED_TEXT@
        } else if busy {
            r matches EnsureStep::Refused(TtsError::SidecarStart(m)) && m@ == BUSY_TEXT@
        } else {
            r == EnsureStep::Start
        },
    }
}

/// The client once it has noted texts that are about to be sent.
pub open spec fn remembering(c: Client, sent: Seq<Seq<char>>) -> Client {
    Client { recent: last_of(c.recent + worth_masking(sent), RECENT_SECRETS as int), ..c }
}

impl IrodoriClient {
    /// Begins to have a text spoken: what is about to be sent is noted before
    /// anything else, for the sidecar may write of it before it answers. Returns
    /// what has to happen before the request can be sent.
    pub fn synthesize(&mut self, now: i64, busy: bool, input: &str, caption: Option<&str>) -> (r:
        EnsureStep)
        ensures
            final(self)@ == remembering(old(self)@, sent_with_speech(input@, opt_str(caption))),
            ensured(final(self)@, now, busy, r),
    {
        let mut sent: Vec<&str> = Vec::new();
        sent.push(input);
        sent.push(
            match caption {
                Some(c) => c,
                None => "",
            },
        );
        assert(text::str_texts(sent@) =~= sent_with_speech(input@, opt_str(caption)));
        self.remember_secrets(&sent);
        self.ensure_sidecar_running(now, busy)
    }

    /// The address and the request to have a text spoken by the sidecar on this
    /// port, which counts as used from now on.
    pub fn speech_request(
        &mut self,
        now: i64,
        port: u16,
        input: &str,
        voice: &str,
        speed: u64,
        caption: Option<&str>,
    ) -> (r: (String, SpeechRequest))
        ensures
            final(self)@ == (Client { last_used: now, ..old(self)@ }),
            r.0@ == local_url(port, SPEECH_PATH@),
            r.1.model@ == SPEECH_MODEL@,
            r.1.input@ == input@,
            r.1.voice@ == voice@,
            r.1.response_format@ == SPEECH_FORMAT@,
            r.1.speed == speed,
            text::opt_text(r.1.caption) == opt_str(caption),
    {
        self.touch_last_used(now);
        (
            url_of(port, SPEECH_PATH),
            SpeechRequest {
                model: owned(SPEECH_MODEL),
                input: owned(input),
                voice: owned(voice),
                response_format: owned(SPEECH_FORMAT),
                speed,
                caption: match caption {
                    Some(c) => Some(owned(c)),
                    None => None,
                },
            },
        )
    }

    /// Begins to have a voice made after a caption, as `synthesize` does.
    pub fn generate_voice_ref(&mut self, now: i64, busy: bool, caption: &str) -> (r: EnsureStep)
        ensures
            final(self)@ == remembering(old(self)@, seq![caption@]),
            ensured(final(self)@, now, busy, r),
    {
        let mut sent: Vec<&str> = Vec::new();
        sent.push(caption);
        assert(text::str_texts(sent@) =~= seq![caption@]);
        self.remember_secrets(&sent);
        self.ensure_sidecar_running(now, busy)
    }

    /// The address and the request to have a voice made, as `speech_request`.
    pub fn voice_ref_request(&mut self, now: i64, port: u16, caption: &str, out_path: &str) -> (r: (
        String,
        VoiceRefRequest,
    ))
        ensures
            final(self)@ == (Client { last_used: now, ..old(self)@ }),
            r.0@ == local_url(port, VOICE_REF_PATH@),
            r.1.caption@ == caption@,
            r.1.out_path@ == out_path@,
    {
        self.touch_last_used(now);
        (
            url_of(port, VOICE_REF_PATH),
            VoiceRefRequest { caption: owned(caption), out_path: owned(out_path) },
        )
    }

    /// Whether the sidecar is well, given whether its answer said so. There is
    /// nothing wrong where none is running.
    pub fn health_ping(&self, answered_well: bool) -> (r: bool)
        ensures
            r == (self@.port is None || answered_well),
    {
        self.port.is_none() || answered_well
    }
}

/// What came of a request to the sidecar.
#[derive(Debug, PartialEq, Eq)]
pub enum Reply<T> {
    /// It could not be sent, or was not answered.
    NotAnswered(String),
    /// The sidecar refused it.
    Refused { status: String, body: String },
    /// The answer could not be read.
    Unreadable(String),
    Read(T),
}

/// The result of a request, given what was sent with it and what is said where
/// the answer could not be read.
pub open spec fn answered<T>(
    reply: Reply<T>,
    unreadable: Seq<char>,
    sent: Seq<Seq<char>>,
    r: Result<T, TtsError>,
) -> bool {
    match reply {
        Reply::Read(t) => r == Ok::<T, TtsError>(t),
        Reply::NotAnswered(why) => r matches Err(TtsError::Http(m)) && m@ == why@,
        Reply::Refused { status, body } => r matches Err(TtsError::Http(m)) && m@ == refusal_text(
            status@,
            body@,
            sent,
        ),
        Reply::Unreadable(why) => r matches Err(TtsError::Http(m)) && m@ == unreadable + why@,
    }
}

fn answer<T>(reply: Reply<T>, unreadable: &str, sent: &Vec<String>) -> (r: Result<T, TtsError>)
    ensures
        answered(reply, unreadable@, text::texts(sent@), r),
{
    match reply {
        Reply::Read(t) => Ok(t),
        Reply::NotAnswered(why) => Err(TtsError::Http(why)),
        Reply::Refused { status, body } => Err(
            request_refused(status.as_str(), body.as_str(), sent),
        ),
        Reply::Unreadable(why) => {
            let mut out = owned(unreadable);
            push_text(&mut out, why.as_str());
            Err(TtsError::Http(out))
        },
    }
}

pub const SOUND_UNREADABLE: &'static str = "body 受信失敗: ";

pub const VOICE_REF_UNREADABLE: &'static str = "voice_ref レスポンス解析失敗: ";

/// The sound of a text that was to be spoken, or why there is none.
pub fn speech_answer(reply: Reply<Vec<u8>>, input: &str, caption: Option<&str>) -> (r: Result<
    Vec<u8>,
    TtsError,
>)
    ensures
        answered(reply, SOUND_UNREADABLE@, sent_with_speech(input@, opt_str(caption)), r),
{
    let mut sent: Vec<String> = Vec::new();
    sent.push(owned(input));
    sent.push(
        match caption {
            Some(c) => owned(c),
            None => owned(""),
        },
    );
    assert(text::texts(sent@) =~= sent_with_speech(input@, opt_str(caption)));
    answer(reply, SOUND_UNREADABLE, &sent)
}

/// Where the voice that was to be made lies, or why there is none.
pub fn voice_ref_answer(reply: Reply<String>, caption: &str) -> (r: Result<String, TtsError>)
    ensures
        answered(reply, VOICE_REF_UNREADABLE@, seq![caption@], r),
{
    let mut sent: Vec<String> = Vec::new();
    sent.push(owned(caption));
    assert(text::texts(sent@) =~= seq![caption@]);
    answer(reply, VOICE_REF_UNREADABLE, &sent)
}

/// The error of a sidecar that could not be stopped.
pub fn not_stopped(why: &str) -> (r: TtsError)
    ensures
        r matches TtsError::Http(m) && m@ == "shutdown 失敗: "@ + why@,
{
    let mut out = owned("shutdown 失敗: ");
    push_text(&mut out, why);
    TtsError::Http(out)
}

/// The error of starting a sidecar that was given up because an installation
/// or update began meanwhile.
pub fn busy_mid_launch() -> (r: TtsError)
    ensures
        r matches TtsError::SidecarStart(m) && m@ == BUSY_MID_LAUNCH_TEXT@,
{
    TtsError::SidecarStart(owned(BUSY_MID_LAUNCH_TEXT))
}

/// What is said of a request that the sidecar refused: its status, and its
/// message with what was sent masked.
pub open spec fn refusal_text(status: Seq<char>, body: Seq<char>, sent: Seq<Seq<char>>) -> Seq<
    char,
> {
    status + ": "@ + redact::clean_line(body, sent)
}

/// The error of a request that the sidecar refused, given what was sent with it.
pub fn request_refused(status: &str, body: &str, sent: &Vec<String>) -> (r: TtsError)
    ensures
        r matches TtsError::Http(m) && m@ == refusal_text(status@, body@, text::texts(sent@)),
{
    let mut out = owned(status);
    push_text(&mut out, ": ");
    let variants = secret_variants(sent);
    let clean = sanitize_sidecar_error(body, &variants);
    push_text(&mut out, clean.as_str());
    TtsError::Http(out)
}

/// A failure is told at most once per cooldown: after one was told, none is
/// told until the cooldown is over, and one is told again from then on.
pub proof fn told_once_per_cooldown(told_at: i64, now: i64)
    requires
        told_at != 0,
    ensures
        told_at <= now < told_at + NOTIFY_COOLDOWN_SECS ==> told_recently(told_at, now),
        now >= told_at + NOTIFY_COOLDOWN_SECS ==> !told_recently(told_at, now),
        now < told_at ==> !told_recently(told_at, now),
{
}

/// A sidecar is stopped for being idle exactly where one is running that was used, so
/// long ago or longer.
pub proof fn idle_means_unused_for_so_long(last_used: i64, now: i64, idle_secs: i64)
    requires
        i64::MIN <= now - last_used <= i64::MAX,
    ensures
        last_used != 0 ==> (is_idle(true, last_used, now, idle_secs) <==> now - last_used
            >= idle_secs),
        !is_idle(true, 0, now, idle_secs),
        !is_idle(false, last_used, now, idle_secs),
{
}

/// Starting is barred up to the time that was set and no longer; without one it is not.
pub proof fn barred_up_to_its_time(until: i64, now: i64)
    ensures
        until > 0 ==> (is_disabled(until, now) <==> now < until),
        !is_disabled(0, now),
{
}

proof fn lemma_worth_masking(t: Seq<Seq<char>>, x: Seq<char>)
    ensures
        worth_masking(t).contains(x) <==> t.contains(x) && x.len() >= 4,
        worth_masking(t).len() <= t.len(),
    decreases t.len(),
{
    reveal(Seq::filter);
    if t.len() > 0 {
        let d = t.drop_last();
        lemma_worth_masking(d, x);
        let a = worth_masking(d);
        let b = worth_masking(t);
        if t.contains(x) {
            let j = choose|j: int| 0 <= j < t.len() && t[j] == x;
            if j < d.len() {
                assert(d[j] == x);
            }
        }
        if d.contains(x) {
            let j = choose|j: int| 0 <= j < d.len() && d[j] == x;
            assert(t[j] == x);
        }
        if t.last().len() >= 4 {
            assert(b == a.push(t.last()));
            assert(b[a.len() as int] == t.last());
            if a.contains(x) {
                let j = choose|j: int| 0 <= j < a.len() && a[j] == x;
                assert(b[j] == x);
            }
            if b.contains(x) {
                let j = choose|j: int| 0 <= j < b.len() && b[j] == x;
                if j < a.len() {
                    assert(a[j] == x);
                } else {
                    assert(t[t.len() - 1] == x);
                }
            }
        }
    }
}

/// What is about to be sent is remembered, each text of four characters or more, and so
/// are the texts sent before, up to sixteen in all and the latest of them; nothing else
/// of what the client knows changes.
pub proof fn what_is_sent_is_remembered(c: Client, sent: Seq<Seq<char>>, x: Seq<char>, k: int)
    requires
        sent.len() <= 16,
    ensures
        sent.contains(x) && x.len() >= 4 ==> remembering(c, sent).recent.contains(x),
        remembering(c, sent).recent.len() <= 16,
        0 <= k < c.recent.len() && k + 16 >= c.recent.len() + sent.len() ==> remembering(
            c,
            sent,
        ).recent.contains(c.recent[k]),
        remembering(c, sent).recent.contains(x) ==> c.recent.contains(x) || (sent.contains(x)
            && x.len() >= 4),
        remembering(c, sent).port == c.port,
        remembering(c, sent).last_used == c.last_used,
        remembering(c, sent).last_notified_unavailable == c.last_notified_unavailable,
        remembering(c, sent).disable_until == c.disable_until,
{
    let w = worth_masking(sent);
    let all = c.recent + w;
    let r = last_of(all, 16);
    lemma_worth_masking(sent, x);
    let off = if all.len() <= 16 {
        0
    } else {
        all.len() - 16
    };
    assert(forall|j: int| off <= j < all.len() ==> all[j] == #[trigger] r[j - off]);
    if w.contains(x) {
        let j = choose|j: int| 0 <= j < w.len() && w[j] == x;
        assert(all[c.recent.len() + j] == x);
        assert(r[c.recent.len() + j - off] == x);
    }
    if 0 <= k < c.recent.len() && k + 16 >= c.recent.len() + sent.len() {
        assert(all[k] == c.recent[k]);
        assert(r[k - off] == c.recent[k]);
    }
    if r.contains(x) {
        let j = choose|j: int| 0 <= j < r.len() && r[j] == x;
        assert(all[j + off] == x);
        if j + off < c.recent.len() {
            assert(c.recent[j + off] == x);
        } else {
            assert(w[j + off - c.recent.len()] == x);
        }
    }
}

/// Both the text and its caption count as sent.
pub proof fn text_and_caption_are_sent(input: Seq<char>, caption: Seq<char>)
    ensures
        sent_with_speech(input, Some(caption)).contains(input),
        sent_with_speech(input, Some(caption)).contains(caption),
        sent_with_speech(input, None).contains(input),
        sent_with_speech(input, Some(caption)).len() == 2,
        sent_with_speech(input, None).len() == 2,
{
    assert(sent_with_speech(input, Some(caption))[0] == input);
    assert(sent_with_speech(input, Some(caption))[1] == caption);
    assert(sent_with_speech(input, None)[0] == input);
}

/// A sidecar that is running is used, whatever else holds; one is started only where
/// none is running, starting is not barred and nothing is being installed, and then it
/// is; else the reason is told, that it is barred before the other.
pub proof fn started_only_where_it_may_be(c: Client, now: i64, busy: bool, r: EnsureStep)
    requires
        ensured(c, now, busy, r),
    ensures
        c.port is Some ==> r == EnsureStep::Running(c.port->0),
        r is Start <==> c.port is None && !is_disabled(c.disable_until, now) && !busy,
        c.port is None && is_disabled(c.disable_until, now) ==> (r matches EnsureStep::Refused(
            TtsError::SidecarStart(m),
        ) && m@ == DISABLED_TEXT@),
        c.port is None && !is_disabled(c.disable_until, now) && busy ==> (
        r matches EnsureStep::Refused(TtsError::SidecarStart(m)) && m@ == BUSY_TEXT@),
{
}

/// What the sidecar answered is handed on as it is; whatever else came of a request is
/// an error, never an empty answer. What it says in refusing does not give away what it
/// was sent.
pub proof fn answers_are_handed_on<T>(
    reply: Reply<T>,
    unreadable: Seq<char>,
    sent: Seq<Seq<char>>,
    r: Result<T, TtsError>,
    i: int,
)
    requires
        answered(reply, unreadable, sent, r),
        0 <= i < sent.len(),
        sent[i].len() >= 4,
        redact::mask_free(sent[i]),
    ensures
        reply matches Reply::Read(t) ==> r == Ok::<T, TtsError>(t),
        !(reply is Read) ==> r is Err,
        reply matches Reply::NotAnswered(why) ==> (r matches Err(TtsError::Http(m)) && m@ == why@),
        reply matches Reply::Refused { status, body } ==> (r matches Err(TtsError::Http(m)) && m@
            == status@ + ": "@ + redact::cut(
            redact::masked(body@, redact::variants_of(sent)),
        )),
        reply matches Reply::Refused { status, body } ==> !text::has_text(
            redact::logged_part(redact::masked(body@, redact::variants_of(sent))),
            sent[i],
        ),
{
    if reply is Refused {
        redact::sent_texts_never_logged(reply->body@, sent, i);
    }
}

} // verus!
