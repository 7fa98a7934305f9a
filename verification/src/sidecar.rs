//! The sidecar that speaks: how it is started, how it is told apart from what is
//! not ours, and how one that an earlier run left behind is stopped.
//!
//! Every sidecar that was started is kept in a ledger until it was seen to end.
//! At the next start whatever is in the ledger is looked up; what answers like a
//! sidecar is stopped, and a record is dropped only once it is known to stand
//! for nothing that runs.
use vstd::prelude::*;

use crate::json::{read_json, JsonDoc};
use crate::json;
use crate::paths::AssetPath;
use crate::paths;
use crate::pins::{model_args_for_read, InstalledStamp};
use crate::names;
use crate::pins;
use crate::reader::decode_output_line;
use crate::reader;
use crate::text::{decimal_text, owned, push_text};
use crate::text;

verus! {

/// The file that holds the ledger.
pub const LEDGER_FILE: &'static str = "sidecars.json";

/// Where the ledger is.
pub fn ledger_path(irodori_root: &AssetPath) -> (r: AssetPath)
    ensures
        r@ == paths::below(irodori_root@, LEDGER_FILE@),
{
    irodori_root.join(LEDGER_FILE)
}

/// Where a sidecar says that it is ready.
pub fn ready_path_for(irodori_root: &AssetPath) -> (r: AssetPath)
    ensures
        r@ == paths::below(irodori_root@, "ready.json"@),
{
    irodori_root.join("ready.json")
}

/// A sidecar: the port that it listens on, and the number of its process.
#[derive(Clone, Copy, Debug, PartialEq, Eq, Structural)]
pub struct ReadyFile {
    pub port: u16,
    pub pid: u32,
}

/// A sidecar that was started.
#[derive(Debug, PartialEq, Eq)]
pub struct SidecarHandle {
    pub asset_root: AssetPath,
    pub port: u16,
    pub pid: u32,
}

impl SidecarHandle {
    /// The directory that it was started from.
    pub fn asset_root(&self) -> (r: &AssetPath)
        ensures
            *r == self.asset_root,
    {
        &self.asset_root
    }

    /// Its record in the ledger.
    pub fn record(&self) -> (r: ReadyFile)
        ensures
            r == (ReadyFile { port: self.port, pid: self.pid }),
    {
        ReadyFile { port: self.port, pid: self.pid }
    }
}

/// A record of that port.
pub open spec fn holds_port(l: Seq<ReadyFile>, port: u16) -> bool {
    exists|i: int| 0 <= i < l.len() && (#[trigger] l[i]).port == port
}

/// No port stands in the ledger twice.
pub open spec fn ports_unique(l: Seq<ReadyFile>) -> bool {
    forall|i: int, j: int|
        0 <= i < j < l.len() ==> (#[trigger] l[i]).port != (#[trigger] l[j]).port
}

/// The ledger without any record of that port.
pub open spec fn without_port(l: Seq<ReadyFile>, port: u16) -> Seq<ReadyFile> {
    l.filter(|e: ReadyFile| e.port != port)
}

/// The ledger with one more record, which takes the place of any of its port.
pub open spec fn ledger_with(l: Seq<ReadyFile>, e: ReadyFile) -> Seq<ReadyFile> {
    without_port(l, e.port).push(e)
}

/// Every record but that one.
pub open spec fn other_than(e: ReadyFile) -> spec_fn(ReadyFile) -> bool {
    |x: ReadyFile| x != e
}

/// The ledger without that record: port and process both have to be the same.
pub open spec fn ledger_without(l: Seq<ReadyFile>, e: ReadyFile) -> Seq<ReadyFile> {
    l.filter(other_than(e))
}

proof fn lemma_filter_step(l: Seq<ReadyFile>, f: spec_fn(ReadyFile) -> bool, i: int)
    requires
        0 <= i < l.len(),
    ensures
        l.take(i + 1).filter(f) == (if f(l[i]) {
            l.take(i).filter(f).push(l[i])
        } else {
            l.take(i).filter(f)
        }),
{
    reveal(Seq::filter);
    assert(l.take(i + 1).drop_last() =~= l.take(i));
    assert(l.take(i + 1).last() == l[i]);
}

/// Adds a record to the ledger.
pub fn ledger_add(ledger: &Vec<ReadyFile>, entry: ReadyFile) -> (r: Vec<ReadyFile>)
    ensures
        r@ == ledger_with(ledger@, entry),
{
    let ghost f = |e: ReadyFile| e.port != entry.port;
    let mut out: Vec<ReadyFile> = Vec::new();
    let mut i: usize = 0;
    proof {
        reveal(Seq::filter);
        assert(ledger@.take(0).filter(f) =~= Seq::<ReadyFile>::empty());
    }
    while i < ledger.len()
        invariant
            i <= ledger@.len(),
            f == (|e: ReadyFile| e.port != entry.port),
            out@ == ledger@.take(i as int).filter(f),
        decreases ledger@.len() - i,
    {
        proof {
            lemma_filter_step(ledger@, f, i as int);
        }
        if ledger[i].port != entry.port {
            out.push(ledger[i]);
        }
        i += 1;
    }
    assert(ledger@.take(ledger@.len() as int) =~= ledger@);
    out.push(entry);
    out
}

/// Takes a record out of the ledger.
pub fn ledger_remove(ledger: &Vec<ReadyFile>, record: &ReadyFile) -> (r: Vec<ReadyFile>)
    ensures
        r@ == ledger_without(ledger@, *record),
{
    let ghost f = other_than(*record);
    let mut out: Vec<ReadyFile> = Vec::new();
    let mut i: usize = 0;
    proof {
        reveal(Seq::filter);
        assert(ledger@.take(0).filter(f) =~= Seq::<ReadyFile>::empty());
    }
    while i < ledger.len()
        invariant
            i <= ledger@.len(),
            f == other_than(*record),
            out@ == ledger@.take(i as int).filter(f),
        decreases ledger@.len() - i,
    {
        proof {
            lemma_filter_step(ledger@, f, i as int);
        }
        if ledger[i].port != record.port || ledger[i].pid != record.pid {
            out.push(ledger[i]);
        }
        i += 1;
    }
    assert(ledger@.take(ledger@.len() as int) =~= ledger@);
    out
}

/// Another process now has the port of a record.
pub open spec fn port_taken(l: Seq<ReadyFile>, c: ReadyFile) -> bool {
    exists|i: int| 0 <= i < l.len() && (#[trigger] l[i]).port == c.port && l[i].pid != c.pid
}

/// Whether the ledger gives the port of a record to another process: one that
/// was started since.
pub fn taken_by_a_new_child(ledger: &Vec<ReadyFile>, candidate: &ReadyFile) -> (r: bool)
    ensures
        r == port_taken(ledger@, *candidate),
{
    let mut i: usize = 0;
    while i < ledger.len()
        invariant
            i <= ledger@.len(),
            forall|k: int|
                0 <= k < i ==> !((#[trigger] ledger@[k]).port == candidate.port && ledger@[k].pid
                    != candidate.pid),
        decreases ledger@.len() - i,
    {
        if ledger[i].port == candidate.port && ledger[i].pid != candidate.pid {
            return true;
        }
        i += 1;
    }
    false
}

proof fn lemma_filter_contains(l: Seq<ReadyFile>, f: spec_fn(ReadyFile) -> bool, x: ReadyFile)
    ensures
        l.filter(f).contains(x) <==> l.contains(x) && f(x),
    decreases l.len(),
{
    reveal(Seq::filter);
    if l.len() > 0 {
        let front = l.drop_last();
        lemma_filter_contains(front, f, x);
        assert(l =~= front.push(l.last()));
        lemma_push_contains(front, l.last(), x);
        if f(l.last()) {
            lemma_push_contains(front.filter(f), l.last(), x);
        }
    } else {
        assert(l.filter(f) =~= l);
    }
}

proof fn lemma_push_contains(s: Seq<ReadyFile>, y: ReadyFile, x: ReadyFile)
    ensures
        s.push(y).contains(x) <==> s.contains(x) || x == y,
{
    if s.contains(x) {
        let i = choose|i: int| 0 <= i < s.len() && s[i] == x;
        assert(s.push(y)[i] == x);
    }
    if x == y {
        assert(s.push(y)[s.len() as int] == x);
    }
    if s.push(y).contains(x) && x != y {
        let i = choose|i: int| 0 <= i < s.push(y).len() && s.push(y)[i] == x;
        assert(s[i] == x);
    }
}

proof fn lemma_filter_unique(l: Seq<ReadyFile>, f: spec_fn(ReadyFile) -> bool)
    requires
        ports_unique(l),
    ensures
        ports_unique(l.filter(f)),
    decreases l.len(),
{
    reveal(Seq::filter);
    if l.len() > 0 {
        let front = l.drop_last();
        assert forall|i: int, j: int| 0 <= i < j < front.len() implies (#[trigger] front[i]).port
            != (#[trigger] front[j]).port by {
            assert(front[i] == l[i] && front[j] == l[j]);
        }
        lemma_filter_unique(front, f);
        let kept = front.filter(f);
        if f(l.last()) {
            assert forall|i: int| 0 <= i < kept.len() implies (#[trigger] kept[i]).port
                != l.last().port by {
                assert(kept.contains(kept[i]));
                lemma_filter_contains(front, f, kept[i]);
                let k = choose|k: int| 0 <= k < front.len() && front[k] == kept[i];
                assert(l[k] == kept[i]);
                assert(l[k].port != l[l.len() - 1].port);
            }
        }
    }
}

/// A new sidecar is in the ledger, the records of other ports stay, none of its
/// own port is left beside it, and no port stands there twice.
pub proof fn adding_replaces_the_same_port_only(l: Seq<ReadyFile>, e: ReadyFile, x: ReadyFile)
    ensures
        ledger_with(l, e).contains(e),
        x.port != e.port ==> (ledger_with(l, e).contains(x) <==> l.contains(x)),
        x.port == e.port && ledger_with(l, e).contains(x) ==> x == e,
        ports_unique(l) ==> ports_unique(ledger_with(l, e)),
{
    let f = |y: ReadyFile| y.port != e.port;
    let kept = l.filter(f);
    lemma_push_contains(kept, e, e);
    lemma_push_contains(kept, e, x);
    lemma_filter_contains(l, f, x);
    if ports_unique(l) {
        lemma_filter_unique(l, f);
        assert forall|i: int| 0 <= i < kept.len() implies (#[trigger] kept[i]).port != e.port by {
            assert(kept.contains(kept[i]));
            lemma_filter_contains(l, f, kept[i]);
        }
    }
}

/// Taking a record out leaves every other: also that of another process which
/// has the same port.
pub proof fn removing_takes_that_record_only(l: Seq<ReadyFile>, e: ReadyFile, x: ReadyFile)
    ensures
        ledger_without(l, e).contains(x) <==> l.contains(x) && x != e,
        ports_unique(l) ==> ports_unique(ledger_without(l, e)),
{
    let f = other_than(e);
    lemma_filter_contains(l, f, x);
    if ports_unique(l) {
        lemma_filter_unique(l, f);
    }
}

/// The shape of the answer of a sidecar.
pub open spec fn is_sidecar_answer(d: json::Doc) -> bool {
    &&& json::member(d, "status"@) matches Some(json::Field::Text(_))
    &&& json::member(d, "mock"@) matches Some(json::Field::Bool(_))
    &&& json::member(d, "gpu"@) is Some
}

/// Whether an answer is that of a sidecar, by its shape. Whether it reports
/// success does not count: a sidecar without a GPU reports an error.
pub fn looks_like_our_sidecar(body: &JsonDoc) -> (r: bool)
    ensures
        r == is_sidecar_answer(body@),
{
    body.string("status").is_some() && body.boolean("mock").is_some() && body.get("gpu").is_some()
}

/// What is behind a port.
#[derive(Clone, Copy, Debug, PartialEq, Eq, Structural)]
pub enum Probe {
    /// It answers like a sidecar.
    Ours,
    /// Nothing is there, or something else answers.
    NotOurs,
    /// It is there, but did not answer in time; it may be a sidecar at work.
    Unanswered,
}

/// What came of connecting to a port.
#[derive(Clone, Copy, Debug, PartialEq, Eq, Structural)]
pub enum Connecting {
    Connected,
    TimedOut,
    Failed,
    /// It could not be tried.
    NotTried,
}

/// Whether a port can be reached.
#[derive(Clone, Copy, Debug, PartialEq, Eq, Structural)]
pub enum Reach {
    Connected,
    /// Nobody is there.
    Refused,
    /// Nothing is known.
    NoAnswer,
}

/// Whether a port can be reached, by what came of connecting to it.
pub fn tcp_reach(c: Connecting) -> (r: Reach)
    ensures
        r == (match c {
            Connecting::Connected => Reach::Connected,
            Connecting::Failed => Reach::Refused,
            Connecting::TimedOut | Connecting::NotTried => Reach::NoAnswer,
        }),
{
    match c {
        Connecting::Connected => Reach::Connected,
        Connecting::Failed => Reach::Refused,
        Connecting::TimedOut => Reach::NoAnswer,
        Connecting::NotTried => Reach::NoAnswer,
    }
}

/// What came of asking for the health of a sidecar.
#[derive(Debug, PartialEq, Eq)]
pub enum HealthAnswer {
    /// There was no answer in time.
    TimedOut,
    /// Asking failed in another way.
    Failed,
    /// The text of the answer.
    Body(String),
}

/// What is behind a port, by what was reached and, where something was, by its
/// answer.
pub open spec fn probed(reach: Reach, a: HealthAnswer) -> Probe {
    match reach {
        Reach::Refused => Probe::NotOurs,
        Reach::NoAnswer => Probe::Unanswered,
        Reach::Connected => match a {
            HealthAnswer::TimedOut => Probe::Unanswered,
            HealthAnswer::Failed => Probe::NotOurs,
            HealthAnswer::Body(t) => match json::json_document(t@) {
                Some(d) => if is_sidecar_answer(d) {
                    Probe::Ours
                } else {
                    Probe::NotOurs
                },
                None => Probe::NotOurs,
            },
        },
    }
}

/// Judges an answer that was read.
pub fn judge_document(d: &Option<JsonDoc>) -> (r: Probe)
    ensures
        r == (if d is Some && is_sidecar_answer(d->0@) {
            Probe::Ours
        } else {
            Probe::NotOurs
        }),
{
    match d {
        Some(body) => if looks_like_our_sidecar(body) {
            Probe::Ours
        } else {
            Probe::NotOurs
        },
        None => Probe::NotOurs,
    }
}

/// Says what is behind a port. Whether anything is there is settled first, by
/// connecting alone: a port that refuses is not mistaken for one that is slow.
pub fn identify_sidecar(reach: Reach, answer: &HealthAnswer) -> (r: Probe)
    ensures
        r == probed(reach, *answer),
{
    match reach {
        Reach::Refused => Probe::NotOurs,
        Reach::NoAnswer => Probe::Unanswered,
        Reach::Connected => match answer {
            HealthAnswer::TimedOut => Probe::Unanswered,
            HealthAnswer::Failed => Probe::NotOurs,
            HealthAnswer::Body(t) => judge_document(&read_json(t.as_str())),
        },
    }
}

/// The records that may stand for a sidecar that still runs: the ledger, and the
/// file of the last one that was ready, unless its port is in the ledger.
pub open spec fn candidates_of(l: Seq<ReadyFile>, ready: Option<ReadyFile>) -> Seq<ReadyFile> {
    match ready {
        Some(x) => if holds_port(l, x.port) {
            l
        } else {
            l.push(ReadyFile { port: x.port, pid: 0 })
        },
        None => l,
    }
}

/// The records that may stand for a sidecar that still runs.
pub fn orphan_candidates(ledger: &Vec<ReadyFile>, ready: Option<ReadyFile>) -> (r: Vec<ReadyFile>)
    ensures
        r@ == candidates_of(ledger@, ready),
{
    let mut out: Vec<ReadyFile> = Vec::new();
    let mut known = false;
    let mut i: usize = 0;
    while i < ledger.len()
        invariant
            i <= ledger@.len(),
            out@ == ledger@.take(i as int),
            ready is None ==> !known,
            ready matches Some(x) ==> known == exists|k: int|
                0 <= k < i && (#[trigger] ledger@[k]).port == x.port,
        decreases ledger@.len() - i,
    {
        out.push(ledger[i]);
        assert(out@ =~= ledger@.take(i + 1));
        match ready {
            Some(x) => {
                if ledger[i].port == x.port {
                    known = true;
                    assert(ledger@[i as int].port == x.port);
                }
            },
            None => {},
        }
        i += 1;
    }
    assert(ledger@.take(ledger@.len() as int) =~= ledger@);
    match ready {
        Some(x) => {
            if !known {
                out.push(ReadyFile { port: x.port, pid: 0 });
            }
        },
        None => {},
    }
    out
}

/// The ports, among the first `n` records, behind which a sidecar runs or may.
pub open spec fn live_among(c: Seq<ReadyFile>, p: Seq<Probe>, n: int) -> Seq<u16>
    decreases n,
{
    if n <= 0 {
        Seq::empty()
    } else if p[n - 1] != Probe::NotOurs {
        live_among(c, p, n - 1).push(c[n - 1].port)
    } else {
        live_among(c, p, n - 1)
    }
}

/// The ports behind which a sidecar runs or may run, given what was found behind
/// each. One that does not answer holds its libraries open as well.
pub fn live_sidecars(candidates: &Vec<ReadyFile>, probes: &Vec<Probe>) -> (r: Vec<u16>)
    requires
        candidates@.len() == probes@.len(),
    ensures
        r@ == live_among(candidates@, probes@, candidates@.len() as int),
{
    let mut out: Vec<u16> = Vec::new();
    let mut i: usize = 0;
    while i < candidates.len()
        invariant
            i <= candidates@.len(),
            candidates@.len() == probes@.len(),
            out@ == live_among(candidates@, probes@, i as int),
        decreases candidates@.len() - i,
    {
        if probes[i] != Probe::NotOurs {
            out.push(candidates[i].port);
        }
        i += 1;
    }
    out
}

/// How far the look at one record is.
#[derive(Clone, Copy, Debug, PartialEq, Eq, Structural)]
pub enum SweepStage {
    /// The ledger is read again.
    Look,
    /// What is behind the port is asked.
    Ask,
    /// It is told to stop.
    Stop,
    /// Its record is taken out of the ledger.
    Forget,
    Done,
}

/// Stopping what earlier runs left behind, one record after the other.
pub struct Sweep {
    candidates: Vec<ReadyFile>,
    at: usize,
    stopped: usize,
    stage: SweepStage,
}

/// What a `Sweep` knows.
pub struct Sweeping {
    pub candidates: Seq<ReadyFile>,
    /// The record that is looked at.
    pub at: int,
    /// How many were stopped.
    pub stopped: int,
    pub stage: SweepStage,
}

impl View for Sweep {
    type V = Sweeping;

    closed spec fn view(&self) -> Sweeping {
        Sweeping {
            candidates: self.candidates@,
            at: self.at as int,
            stopped: self.stopped as int,
            stage: self.stage,
        }
    }
}

/// What a sweep asks for.
#[derive(Clone, Copy, Debug, PartialEq, Eq, Structural)]
pub enum SweepAction {
    ReadLedger,
    Identify(u16),
    RequestShutdown(u16),
    Remove(ReadyFile),
    /// It is over; so many were stopped.
    Finish(usize),
}

/// What came of it.
pub enum Happened {
    Ledger(Seq<ReadyFile>),
    Probed(Probe),
    /// Whether it was seen to stop.
    Stopped(bool),
    Removed,
}

/// The sweep at the next record.
pub open spec fn next_record(s: Sweeping) -> Sweeping {
    Sweeping {
        at: s.at + 1,
        stage: if s.at + 1 < s.candidates.len() {
            SweepStage::Look
        } else {
            SweepStage::Done
        },
        ..s
    }
}

/// The sweep after something happened. A record is kept for the next start where
/// its port has been taken by a new sidecar, where nothing answered in time, and
/// where what was told to stop was not seen to.
pub open spec fn sweep_after(s: Sweeping, h: Happened) -> Sweeping {
    match (s.stage, h) {
        (SweepStage::Look, Happened::Ledger(l)) => if port_taken(l, s.candidates[s.at]) {
            next_record(s)
        } else {
            Sweeping { stage: SweepStage::Ask, ..s }
        },
        (SweepStage::Ask, Happened::Probed(p)) => match p {
            Probe::Ours => Sweeping { stage: SweepStage::Stop, ..s },
            Probe::Unanswered => next_record(s),
            Probe::NotOurs => Sweeping { stage: SweepStage::Forget, ..s },
        },
        (SweepStage::Stop, Happened::Stopped(ok)) => if ok {
            Sweeping { stage: SweepStage::Forget, stopped: s.stopped + 1, ..s }
        } else {
            next_record(s)
        },
        (SweepStage::Forget, Happened::Removed) => next_record(s),
        _ => s,
    }
}

/// A sweep that can go on: it is at a record, or over.
pub open spec fn sweep_wf(s: Sweeping) -> bool {
    &&& 0 <= s.at <= s.candidates.len()
    &&& s.stage == SweepStage::Done <==> s.at == s.candidates.len()
    &&& 0 <= s.stopped <= s.at + (if s.stage == SweepStage::Forget {
        1int
    } else {
        0int
    })
}

impl Sweep {
    /// It can go on.
    pub closed spec fn wf(self) -> bool {
        sweep_wf(self@)
    }

    /// Begins a sweep over these records.
    pub fn new(candidates: Vec<ReadyFile>) -> (r: Self)
        ensures
            r.wf(),
            sweep_wf(r@),
            r@ == (Sweeping {
                candidates: candidates@,
                at: 0,
                stopped: 0,
                stage: if candidates@.len() == 0 {
                    SweepStage::Done
                } else {
                    SweepStage::Look
                },
            }),
    {
        let stage = if candidates.len() == 0 {
            SweepStage::Done
        } else {
            SweepStage::Look
        };
        Sweep { candidates, at: 0, stopped: 0, stage }
    }

    /// What it asks for now.
    pub fn action(&self) -> (r: SweepAction)
        requires
            self.wf(),
        ensures
            match self@.stage {
                SweepStage::Look => r == SweepAction::ReadLedger,
                SweepStage::Ask => r == SweepAction::Identify(self@.candidates[self@.at].port),
                SweepStage::Stop => r == SweepAction::RequestShutdown(
                    self@.candidates[self@.at].port,
                ),
                SweepStage::Forget => r == SweepAction::Remove(self@.candidates[self@.at]),
                SweepStage::Done => r is Finish && r->Finish_0 == self@.stopped,
            },
    {
        match self.stage {
            SweepStage::Look => SweepAction::ReadLedger,
            SweepStage::Ask => SweepAction::Identify(self.candidates[self.at].port),
            SweepStage::Stop => SweepAction::RequestShutdown(self.candidates[self.at].port),
            SweepStage::Forget => SweepAction::Remove(self.candidates[self.at]),
            SweepStage::Done => SweepAction::Finish(self.stopped),
        }
    }

    fn next(&mut self)
        requires
            old(self).at < old(self).candidates.len(),
        ensures
            final(self)@ == next_record(old(self)@),
    {
        self.at = self.at + 1;
        self.stage = if self.at < self.candidates.len() {
            SweepStage::Look
        } else {
            SweepStage::Done
        };
    }

    /// The ledger was read.
    pub fn on_ledger(&mut self, ledger: &Vec<ReadyFile>)
        requires
            old(self).wf(),
            old(self)@.stage == SweepStage::Look,
        ensures
            final(self).wf(),
            final(self)@ == sweep_after(old(self)@, Happened::Ledger(ledger@)),
    {
        if taken_by_a_new_child(ledger, &self.candidates[self.at]) {
            self.next();
        } else {
            self.stage = SweepStage::Ask;
        }
    }

    /// It is known what is behind the port.
    pub fn on_probe(&mut self, probe: Probe)
        requires
            old(self).wf(),
            old(self)@.stage == SweepStage::Ask,
        ensures
            final(self).wf(),
            final(self)@ == sweep_after(old(self)@, Happened::Probed(probe)),
    {
        match probe {
            Probe::Ours => {
                self.stage = SweepStage::Stop;
            },
            Probe::Unanswered => {
                self.next();
            },
            Probe::NotOurs => {
                self.stage = SweepStage::Forget;
            },
        }
    }

    /// It was told to stop, and was seen to, or not.
    pub fn on_stop(&mut self, stopped: bool)
        requires
            old(self).wf(),
            old(self)@.stage == SweepStage::Stop,
        ensures
            final(self).wf(),
            final(self)@ == sweep_after(old(self)@, Happened::Stopped(stopped)),
    {
        if stopped {
            assert(self.stopped <= self.at < self.candidates.len());
            self.stopped = self.stopped + 1;
            self.stage = SweepStage::Forget;
        } else {
            self.next();
        }
    }

    /// The record was taken out of the ledger.
    pub fn on_removed(&mut self)
        requires
            old(self).wf(),
            old(self)@.stage == SweepStage::Forget,
        ensures
            final(self).wf(),
            final(self)@ == sweep_after(old(self)@, Happened::Removed),
    {
        self.next();
    }
}

/// The sweep after the first `n` things that happened.
pub open spec fn sweep_run(s: Sweeping, h: Seq<Happened>, n: int) -> Sweeping
    decreases n,
{
    if n <= 0 {
        s
    } else {
        sweep_after(sweep_run(s, h, n - 1), h[n - 1])
    }
}

proof fn lemma_sweep_wf(s: Sweeping, h: Seq<Happened>, n: int)
    requires
        sweep_wf(s),
        0 <= n <= h.len(),
    ensures
        sweep_wf(sweep_run(s, h, n)),
        sweep_run(s, h, n).candidates == s.candidates,
    decreases n,
{
    if n > 0 {
        lemma_sweep_wf(s, h, n - 1);
    }
}

/// A sweep at its beginning.
pub open spec fn sweep_begun(s: Sweeping) -> bool {
    sweep_wf(s) && s.at == 0 && s.stopped == 0 && (s.stage == SweepStage::Look || s.stage
        == SweepStage::Done)
}

/// A look at the ledger that showed the port of a record not given to another.
pub open spec fn shows_free(h: Happened, c: ReadyFile) -> bool {
    h matches Happened::Ledger(l) && !port_taken(l, c)
}

/// Where the sweep came to this stage at this record, the step before was one at
/// the same record.
proof fn lemma_came_from(s: Sweeping, h: Seq<Happened>, n: int) -> (k: int)
    requires
        sweep_begun(s),
        0 <= n <= h.len(),
        sweep_run(s, h, n).stage == SweepStage::Ask || sweep_run(s, h, n).stage == SweepStage::Stop
            || sweep_run(s, h, n).stage == SweepStage::Forget,
    ensures
        0 <= k < n,
        sweep_run(s, h, k).at == sweep_run(s, h, n).at,
        match sweep_run(s, h, n).stage {
            SweepStage::Ask => sweep_run(s, h, k).stage == SweepStage::Look && shows_free(
                h[k],
                s.candidates[sweep_run(s, h, n).at],
            ),
            SweepStage::Stop => sweep_run(s, h, k).stage == SweepStage::Ask && h[k]
                == Happened::Probed(Probe::Ours),
            SweepStage::Forget => (sweep_run(s, h, k).stage == SweepStage::Ask && h[k]
                == Happened::Probed(Probe::NotOurs)) || (sweep_run(s, h, k).stage
                == SweepStage::Stop && h[k] == Happened::Stopped(true)),
            _ => true,
        },
    decreases n,
{
    lemma_sweep_wf(s, h, n);
    if n > 0 {
        lemma_sweep_wf(s, h, n - 1);
        let before = sweep_run(s, h, n - 1);
        let now = sweep_run(s, h, n);
        if before.stage == now.stage && before.at == now.at {
            lemma_came_from(s, h, n - 1)
        } else {
            n - 1
        }
    } else {
        0
    }
}

/// However a sweep goes, nothing is told to stop unless it answered like a
/// sidecar, at a port that no new sidecar had been given.
pub proof fn only_ours_is_stopped(s: Sweeping, h: Seq<Happened>, n: int) -> (k: (int, int))
    requires
        sweep_begun(s),
        0 <= n <= h.len(),
        sweep_run(s, h, n).stage == SweepStage::Stop,
    ensures
        0 <= k.0 < k.1 < n,
        sweep_run(s, h, k.0).at == sweep_run(s, h, n).at,
        sweep_run(s, h, k.1).at == sweep_run(s, h, n).at,
        h[k.1] == Happened::Probed(Probe::Ours),
        shows_free(h[k.0], s.candidates[sweep_run(s, h, n).at]),
{
    let b = lemma_came_from(s, h, n);
    let a = lemma_came_from(s, h, b);
    (a, b)
}

/// However a sweep goes, a record is dropped only where nothing of ours was
/// behind its port, or where that was seen to stop.
pub proof fn dropped_only_when_settled(s: Sweeping, h: Seq<Happened>, n: int) -> (k: int)
    requires
        sweep_begun(s),
        0 <= n <= h.len(),
        sweep_run(s, h, n).stage == SweepStage::Forget,
    ensures
        0 <= k < n,
        sweep_run(s, h, k).at == sweep_run(s, h, n).at,
        h[k] == Happened::Probed(Probe::NotOurs) || h[k] == Happened::Stopped(true),
{
    lemma_came_from(s, h, n)
}

/// How long one that was told to stop is given to end, in milliseconds.
pub const STOP_CONFIRM_MS: u64 = 8000;

/// What follows after it was told to stop and its port was tried.
#[derive(Clone, Copy, Debug, PartialEq, Eq, Structural)]
pub enum StopCheck {
    Stopped,
    NotStopped,
    TryAgain,
}

/// Whether one that was told to stop has: that it said so is not enough, its
/// port has to refuse.
pub fn confirm_stop(accepted: bool, reach: Reach, now: u64, deadline: u64) -> (r: StopCheck)
    ensures
        r == (if !accepted {
            StopCheck::NotStopped
        } else if reach == Reach::Refused {
            StopCheck::Stopped
        } else if now >= deadline {
            StopCheck::NotStopped
        } else {
            StopCheck::TryAgain
        }),
{
    if !accepted {
        StopCheck::NotStopped
    } else if reach == Reach::Refused {
        StopCheck::Stopped
    } else if now >= deadline {
        StopCheck::NotStopped
    } else {
        StopCheck::TryAgain
    }
}

/// The address of a sidecar.
pub fn url_of(port: u16, path: &str) -> (r: String)
    ensures
        r@ == "http://127.0.0.1:"@ + text::decimal(port as nat) + path@,
{
    let mut out = owned("http://127.0.0.1:");
    push_text(&mut out, decimal_text(port as u64).as_str());
    push_text(&mut out, path);
    out
}

/// What came of waiting for our own sidecar to end.
#[derive(Debug, PartialEq, Eq)]
pub enum WaitOutcome {
    Ended,
    Failed(String),
    /// It did not end in time.
    Elapsed,
}

/// What follows.
#[derive(Debug, PartialEq, Eq)]
pub enum ShutdownNext {
    /// It has ended: its record is taken out of the ledger.
    Forget,
    /// It is ended by force.
    Kill,
    /// It may still run: its record stays.
    Keep(String),
}

/// What follows after our own sidecar was told to stop.
pub fn after_wait(outcome: &WaitOutcome) -> (r: ShutdownNext)
    ensures
        match *outcome {
            WaitOutcome::Ended => r is Forget,
            WaitOutcome::Elapsed => r is Kill,
            WaitOutcome::Failed(why) => r is Keep && r->Keep_0@ == "サイドカーの wait に失敗: "@
                + why@,
        },
{
    match outcome {
        WaitOutcome::Ended => ShutdownNext::Forget,
        WaitOutcome::Elapsed => ShutdownNext::Kill,
        WaitOutcome::Failed(why) => {
            let mut out = owned("サイドカーの wait に失敗: ");
            push_text(&mut out, why.as_str());
            ShutdownNext::Keep(out)
        },
    }
}

/// What follows after it was ended by force, or that failed.
pub fn after_kill(failure: Option<&str>) -> (r: ShutdownNext)
    ensures
        match failure {
            None => r is Forget,
            Some(why) => r is Keep && r->Keep_0@ == "サイドカーの kill に失敗: "@ + why@,
        },
{
    match failure {
        None => ShutdownNext::Forget,
        Some(why) => {
            let mut out = owned("サイドカーの kill に失敗: ");
            push_text(&mut out, why);
            ShutdownNext::Keep(out)
        },
    }
}

/// Whether a record is that of the process that was started. Where its number is
/// not known, no record is.
pub fn ready_belongs_to(ready: &ReadyFile, expected_pid: u32) -> (r: bool)
    ensures
        r == (expected_pid != 0 && ready.pid == expected_pid),
{
    expected_pid != 0 && ready.pid == expected_pid
}

/// How long a sidecar is given to be ready, in milliseconds.
pub const READY_WITHIN_MS: u64 = 30_000;

/// What follows after a look at the file that says a sidecar is ready.
#[derive(Clone, Copy, Debug, PartialEq, Eq, Structural)]
pub enum ReadyWait {
    /// It listens on that port.
    Ready(u16),
    TimedOut,
    TryAgain,
}

/// Waits for the sidecar that was started: a record of an earlier one is passed
/// over.
pub fn wait_for_ready_file(
    ready: &Option<ReadyFile>,
    expected_pid: u32,
    elapsed: u64,
    limit: u64,
) -> (r: ReadyWait)
    ensures
        r == (if ready is Some && expected_pid != 0 && ready->0.pid == expected_pid {
            ReadyWait::Ready(ready->0.port)
        } else if elapsed > limit {
            ReadyWait::TimedOut
        } else {
            ReadyWait::TryAgain
        }),
{
    match ready {
        Some(x) => {
            if ready_belongs_to(x, expected_pid) {
                return ReadyWait::Ready(x.port);
            }
        },
        None => {},
    }
    if elapsed > limit {
        ReadyWait::TimedOut
    } else {
        ReadyWait::TryAgain
    }
}

/// What is told of a sidecar that was not ready in time.
pub fn not_ready(ready_file: &str) -> (r: String)
    ensures
        r@ == "サイドカーの起動待ちでタイムアウトしました (ready.json: "@ + ready_file@
            + "): timeout"@,
{
    let mut out = owned("サイドカーの起動待ちでタイムアウトしました (ready.json: ");
    push_text(&mut out, ready_file);
    push_text(&mut out, "): timeout");
    out
}

/// The arguments that a sidecar is started with. The models are those that were
/// recorded when they were fetched, not those of this build.
pub open spec fn start_args(
    sidecar: Seq<char>,
    root: Seq<char>,
    ready: Seq<char>,
    stamp: Option<pins::Stamp>,
    mock: bool,
) -> Seq<Seq<char>> {
    let m = pins::chosen_models(
        pins::recorded_models(stamp),
        pins::baseline_models(),
        pins::models_now(),
    );
    seq![
        sidecar,
        "--asset-dir"@,
        root,
        "--ready-file"@,
        ready,
        "--port"@,
        "0"@,
        "--log-level"@,
        "warning"@,
    ] + pins::model_args(names::sorted_names(m), m, 0) + (if mock {
        seq!["--no-download"@, "--mock"@]
    } else {
        seq!["--no-download"@]
    })
}

/// What starting a sidecar depends on.
pub struct StartRequest<'a> {
    pub python: &'a str,
    pub python_is_file: bool,
    pub sidecar: &'a str,
    pub sidecar_is_file: bool,
    pub root: &'a str,
    pub ready: &'a str,
    pub mock: bool,
}

/// Says with which arguments a sidecar is started, or why it cannot be.
pub fn start_sidecar(request: &StartRequest, stamp: &Option<InstalledStamp>) -> (r: Result<
    Vec<String>,
    String,
>)
    requires
        pins::opt_stamp_wf(*stamp),
    ensures
        match r {
            Ok(args) => request.python_is_file && request.sidecar_is_file && text::texts(args@)
                == start_args(
                request.sidecar@,
                request.root@,
                request.ready@,
                pins::opt_stamp(*stamp),
                request.mock,
            ),
            Err(why) => if !request.python_is_file {
                why@ == "Python ランタイムが未配置です ("@ + request.python@
                    + "). 設定パネルから Irodori 資産 DL を実行してください"@
            } else {
                !request.sidecar_is_file && why@ == "sidecar.py が配置されていません: "@
                    + request.sidecar@
            },
        },
{
    if !request.python_is_file {
        let mut out = owned("Python ランタイムが未配置です (");
        push_text(&mut out, request.python);
        push_text(&mut out, "). 設定パネルから Irodori 資産 DL を実行してください");
        return Err(out);
    }
    if !request.sidecar_is_file {
        let mut out = owned("sidecar.py が配置されていません: ");
        push_text(&mut out, request.sidecar);
        return Err(out);
    }
    let mut args: Vec<String> = Vec::new();
    args.push(owned(request.sidecar));
    args.push(owned("--asset-dir"));
    args.push(owned(request.root));
    args.push(owned("--ready-file"));
    args.push(owned(request.ready));
    args.push(owned("--port"));
    args.push(owned("0"));
    args.push(owned("--log-level"));
    args.push(owned("warning"));
    let ghost front = seq![
        request.sidecar@,
        "--asset-dir"@,
        request.root@,
        "--ready-file"@,
        request.ready@,
        "--port"@,
        "0"@,
        "--log-level"@,
        "warning"@,
    ];
    assert(text::texts(args@) =~= front);
    let (mut models, _from) = model_args_for_read(stamp);
    let ghost a = args@;
    let ghost m = models@;
    args.append(&mut models);
    assert(args@ =~= a + m);
    assert(text::texts(args@) =~= front + text::texts(m));
    let ghost middle = text::texts(args@);
    args.push(owned("--no-download"));
    assert(text::texts(args@) =~= middle + seq!["--no-download"@]);
    if request.mock {
        args.push(owned("--mock"));
        assert(text::texts(args@) =~= middle + seq!["--no-download"@, "--mock"@]);
    }
    Ok(args)
}

/// Where the script of the sidecar comes from.
pub fn sidecar_source(resource_dir: &AssetPath) -> (r: AssetPath)
    ensures
        r@ == paths::below(paths::below(resource_dir@, "python"@), "sidecar.py"@),
{
    resource_dir.join("python").join("sidecar.py")
}

/// What is told where the script is missing.
pub fn no_sidecar_source(path: &str) -> (r: String)
    ensures
        r@ == "sidecar.py がリソースに見つかりません: "@ + path@,
{
    let mut out = owned("sidecar.py がリソースに見つかりません: ");
    push_text(&mut out, path);
    out
}

/// A line without the newline that ended it, and without the carriage return
/// right before that.
pub open spec fn line_bytes(b: Seq<u8>) -> Seq<u8> {
    if b.len() > 0 && b.last() == 10 {
        let rest = b.drop_last();
        if rest.len() > 0 && rest.last() == 13 {
            rest.drop_last()
        } else {
            rest
        }
    } else {
        b
    }
}

/// A line that a sidecar wrote, in whichever encoding. One that cannot be read
/// is passed on all the same.
pub fn stderr_line(bytes: &Vec<u8>) -> (r: String)
    requires
        bytes@.len() <= usize::MAX / 8,
    ensures
        r@ == reader::line_decoding(
            reader::utf8_decoding(line_bytes(bytes@)),
            reader::shift_jis_decoding(line_bytes(bytes@)),
        ),
{
    let mut end: usize = bytes.len();
    if end > 0 && bytes[end - 1] == 10 {
        end -= 1;
        if end > 0 && bytes[end - 1] == 13 {
            end -= 1;
        }
    }
    let mut line: Vec<u8> = Vec::new();
    let mut i: usize = 0;
    while i < end
        invariant
            i <= end <= bytes@.len(),
            line@ == bytes@.take(i as int),
        decreases end - i,
    {
        line.push(bytes[i]);
        i += 1;
        assert(line@ =~= bytes@.take(i as int));
    }
    assert(line@ =~= line_bytes(bytes@));
    decode_output_line(&line)
}

/// What is passed on where reading fails.
pub fn stderr_broken(error: &str) -> (r: String)
    ensures
        r@ == "(stderr の読み取りが止まりました: "@ + error@ + ")"@,
{
    let mut out = owned("(stderr の読み取りが止まりました: ");
    push_text(&mut out, error);
    push_text(&mut out, ")");
    out
}

/// What happened answers what was asked for at the stage.
pub open spec fn fits(stage: SweepStage, h: Happened) -> bool {
    match stage {
        SweepStage::Look => h is Ledger,
        SweepStage::Ask => h is Probed,
        SweepStage::Stop => h is Stopped,
        SweepStage::Forget => h is Removed,
        SweepStage::Done => false,
    }
}

/// The first `n` things that happened each answer what was asked for.
pub open spec fn sweep_answered(s: Sweeping, h: Seq<Happened>, n: int) -> bool {
    forall|k: int| 0 <= k < n ==> fits(#[trigger] sweep_run(s, h, k).stage, h[k])
}

proof fn lemma_sweep_keeps(s: Sweeping, h: Seq<Happened>, n: int)
    requires
        sweep_begun(s),
        0 <= n <= h.len(),
        sweep_answered(s, h, n),
    ensures
        sweep_run(s, h, n).candidates == s.candidates,
        0 <= sweep_run(s, h, n).at <= s.candidates.len(),
        sweep_run(s, h, n).stage == SweepStage::Done <==> sweep_run(s, h, n).at
            == s.candidates.len(),
    decreases n,
{
    if n > 0 {
        lemma_sweep_keeps(s, h, n - 1);
        assert(fits(sweep_run(s, h, n - 1).stage, h[n - 1]));
    }
}

proof fn lemma_looked(s: Sweeping, h: Seq<Happened>, n: int) -> (m: int)
    requires
        sweep_begun(s),
        0 <= n <= h.len(),
        sweep_answered(s, h, n),
        sweep_run(s, h, n).stage != SweepStage::Done,
    ensures
        0 <= m <= n,
        sweep_run(s, h, m).at == sweep_run(s, h, n).at,
        sweep_run(s, h, m).stage == SweepStage::Look,
    decreases n,
{
    if sweep_run(s, h, n).stage == SweepStage::Look {
        n
    } else {
        lemma_sweep_keeps(s, h, n - 1);
        assert(fits(sweep_run(s, h, n - 1).stage, h[n - 1]));
        lemma_looked(s, h, n - 1)
    }
}

proof fn lemma_passed(s: Sweeping, h: Seq<Happened>, n: int, k: int) -> (m: int)
    requires
        sweep_begun(s),
        0 <= n <= h.len(),
        sweep_answered(s, h, n),
        0 <= k < sweep_run(s, h, n).at,
    ensures
        0 <= m < n,
        sweep_run(s, h, m).at == k,
        sweep_run(s, h, m).stage == SweepStage::Look,
    decreases n,
{
    if n == 0 {
        0
    } else {
        lemma_sweep_keeps(s, h, n - 1);
        let v = sweep_run(s, h, n - 1);
        assert(fits(v.stage, h[n - 1]));
        if v.at > k {
            lemma_passed(s, h, n - 1, k)
        } else {
            lemma_looked(s, h, n - 1)
        }
    }
}

/// A sweep that has ended has looked at every record.
pub proof fn every_record_is_looked_at(s: Sweeping, h: Seq<Happened>, n: int, k: int) -> (m: int)
    requires
        sweep_begun(s),
        0 <= n <= h.len(),
        sweep_answered(s, h, n),
        sweep_run(s, h, n).stage == SweepStage::Done,
        0 <= k < s.candidates.len(),
    ensures
        0 <= m < n,
        sweep_run(s, h, m).at == k,
        h[m] is Ledger,
{
    lemma_sweep_keeps(s, h, n);
    let m = lemma_passed(s, h, n, k);
    assert(fits(sweep_run(s, h, m).stage, h[m]));
    m
}

/// A sweep counts those that it saw stop.
pub proof fn those_that_stopped_are_counted(s: Sweeping, h: Seq<Happened>, n: int)
    requires
        sweep_begun(s),
        0 <= n <= h.len(),
        sweep_answered(s, h, n),
    ensures
        sweep_run(s, h, n).stopped == h.take(n).filter(
            |x: Happened| x == Happened::Stopped(true),
        ).len(),
    decreases n,
{
    reveal(Seq::filter);
    if n > 0 {
        those_that_stopped_are_counted(s, h, n - 1);
        assert(h.take(n).drop_last() =~= h.take(n - 1));
        assert(fits(sweep_run(s, h, n - 1).stage, h[n - 1]));
    }
}

/// What becomes of the record that is looked at: one whose port another child has
/// taken is passed over; what answers like a sidecar is told to stop, and its record
/// is taken out once it was seen to; what does not answer, or does not stop, keeps its
/// record; where nothing of ours is, the record is taken out. Then comes the next.
pub proof fn what_becomes_of_a_record(s: Sweeping, h: Happened)
    requires
        sweep_wf(s),
        fits(s.stage, h),
    ensures
        ({
            let t = sweep_after(s, h);
            let moved_on = t.at == s.at + 1 && t.stopped == s.stopped && (t.stage
                == SweepStage::Look || t.stage == SweepStage::Done);
            let stays = t.at == s.at;
            &&& t.candidates == s.candidates
            &&& h matches Happened::Ledger(l) ==> (if port_taken(l, s.candidates[s.at]) {
                moved_on
            } else {
                stays && t.stage == SweepStage::Ask
            })
            &&& h == Happened::Probed(Probe::Ours) ==> stays && t.stage == SweepStage::Stop
            &&& h == Happened::Probed(Probe::NotOurs) ==> stays && t.stage == SweepStage::Forget
            &&& h == Happened::Probed(Probe::Unanswered) ==> moved_on
            &&& h == Happened::Stopped(true) ==> stays && t.stage == SweepStage::Forget && t.stopped
                == s.stopped + 1
            &&& h == Happened::Stopped(false) ==> moved_on
            &&& h is Removed ==> moved_on
        }),
{
}

/// A record stands for what may run: all records of the ledger, in their order, and
/// what said that it was ready, unless the ledger holds its port.
pub proof fn whatever_may_run_is_looked_for(l: Seq<ReadyFile>, ready: Option<ReadyFile>)
    ensures
        l.is_prefix_of(candidates_of(l, ready)),
        ready is Some ==> holds_port(candidates_of(l, ready), ready->0.port),
        candidates_of(l, ready).len() <= l.len() + 1,
        candidates_of(l, ready).len() == l.len() + 1 ==> ready is Some && !holds_port(
            l,
            ready->0.port,
        ) && candidates_of(l, ready).last().port == ready->0.port,
        ready is None ==> candidates_of(l, ready) == l,
        ports_unique(l) ==> ports_unique(candidates_of(l, ready)),
{
    let c = candidates_of(l, ready);
    if ready is Some && !holds_port(l, ready->0.port) {
        assert(c[l.len() as int].port == ready->0.port);
        assert(c.take(l.len() as int) =~= l);
    }
}

/// Whatever may be a sidecar is taken for one: all that answered like one and all that
/// did not answer, in their order; only what is certainly none is left out.
pub proof fn whatever_may_be_a_sidecar_is_live(c: Seq<ReadyFile>, p: Seq<Probe>, n: int, x: u16)
    requires
        0 <= n <= c.len(),
        n <= p.len(),
    ensures
        live_among(c, p, n).contains(x) <==> exists|i: int|
            0 <= i < n && (#[trigger] c[i]).port == x && p[i] != Probe::NotOurs,
        live_among(c, p, n).len() == p.take(n).filter(|q: Probe| q != Probe::NotOurs).len(),
    decreases n,
{
    reveal(Seq::filter);
    if n > 0 {
        whatever_may_be_a_sidecar_is_live(c, p, n - 1, x);
        assert(p.take(n).drop_last() =~= p.take(n - 1));
        let a = live_among(c, p, n - 1);
        let b = live_among(c, p, n);
        if b.contains(x) {
            let j = choose|j: int| 0 <= j < b.len() && b[j] == x;
            if j < a.len() {
                assert(a[j] == x);
                let i = choose|i: int|
                    0 <= i < n - 1 && (#[trigger] c[i]).port == x && p[i] != Probe::NotOurs;
                assert(c[i].port == x);
            } else {
                assert(c[n - 1].port == x);
            }
        }
        if exists|i: int| 0 <= i < n && (#[trigger] c[i]).port == x && p[i] != Probe::NotOurs {
            let i = choose|i: int|
                0 <= i < n && (#[trigger] c[i]).port == x && p[i] != Probe::NotOurs;
            if i == n - 1 {
                assert(b[b.len() - 1] == x);
            } else {
                assert(a.contains(x));
                let j = choose|j: int| 0 <= j < a.len() && a[j] == x;
                assert(b[j] == x);
            }
        }
    }
}

/// What is behind a port is ours only where it answered like a sidecar; it is certainly
/// not where nobody is there, asking failed, or something else answered; where there was
/// no answer in time it is not known.
pub proof fn silence_settles_nothing(reach: Reach, a: HealthAnswer)
    ensures
        probed(reach, a) == Probe::Ours ==> reach == Reach::Connected && (a matches HealthAnswer::Body(
            t,
        ) && json::json_document(t@) is Some && is_sidecar_answer(json::json_document(t@)->0)),
        probed(reach, a) == Probe::Unanswered <==> reach == Reach::NoAnswer || (reach
            == Reach::Connected && a is TimedOut),
        reach == Reach::Connected && (a matches HealthAnswer::Body(t) && json::json_document(
            t@,
        ) is Some && is_sidecar_answer(json::json_document(t@)->0)) ==> probed(reach, a)
            == Probe::Ours,
{
}

/// A line is read without what ends it: a newline, with or without a carriage return
/// before it; a line that nothing ends is read as it is.
pub proof fn a_line_is_read_without_its_end(b: Seq<u8>)
    requires
        !b.contains(10),
        !(b.len() > 0 && b.last() == 13),
    ensures
        line_bytes(b) == b,
        line_bytes(b.push(10)) == b,
        line_bytes(b.push(13).push(10)) == b,
{
    if b.len() > 0 {
        assert(b.contains(b.last()));
    }
    assert(b.push(10).drop_last() =~= b);
    assert(b.push(13).push(10).drop_last() =~= b.push(13));
    assert(b.push(13).drop_last() =~= b);
}

/// A sidecar is started with its script, the directory of the assets, the file in which
/// it says that it is ready and the models of the record, all of them; it never fetches
/// anything, and it only pretends to speak where that is asked for.
pub proof fn a_sidecar_is_told_what_it_needs(
    sidecar: Seq<char>,
    root: Seq<char>,
    ready: Seq<char>,
    stamp: Option<pins::Stamp>,
    mock: bool,
)
    ensures
        ({
            let a = start_args(sidecar, root, ready, stamp, mock);
            let m = pins::chosen_models(
                pins::recorded_models(stamp),
                pins::baseline_models(),
                pins::models_now(),
            );
            let models = pins::model_args(names::sorted_names(m), m, 0);
            &&& a[0] == sidecar
            &&& a[1] == "--asset-dir"@ && a[2] == root
            &&& a[3] == "--ready-file"@ && a[4] == ready
            &&& a[5] == "--port"@ && a[6] == "0"@
            &&& a.subrange(9, 9 + models.len() as int) == models
            &&& a[9 + models.len() as int] == "--no-download"@
            &&& a.len() == 10 + models.len() + (if mock {
                1int
            } else {
                0int
            })
            &&& mock ==> a.last() == "--mock"@
        }),
{
    let a = start_args(sidecar, root, ready, stamp, mock);
    let m = pins::chosen_models(
        pins::recorded_models(stamp),
        pins::baseline_models(),
        pins::models_now(),
    );
    let models = pins::model_args(names::sorted_names(m), m, 0);
    assert(a.subrange(9, 9 + models.len() as int) =~= models);
}

} // verus!
