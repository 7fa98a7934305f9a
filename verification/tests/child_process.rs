use ugg::child_process::{
    activity, cleanup, strip_ansi, Activity, Cleanup, Ended, IoCounters, LineAssembler, Msg,
    OutputReader, Stream, Watch, WatchAction, WatchEvent, MAX_LINE_BYTES,
};

fn assemble(chunks: &[&[u8]]) -> Vec<(String, bool)> {
    let mut lines = LineAssembler::new();
    let mut out = Vec::new();
    for c in chunks {
        lines.push(&c.to_vec(), &mut out);
    }
    lines.finish(&mut out);
    out
}

fn owned(v: &[(&str, bool)]) -> Vec<(String, bool)> {
    v.iter().map(|(s, o)| (s.to_string(), *o)).collect()
}

#[test]
fn crlf_is_a_line_end_and_a_lone_cr_is_an_overwrite() {
    assert_eq!(
        assemble(&[b"Collecting torch\r\nDownloading\r\n"]),
        owned(&[("Collecting torch", false), ("Downloading", false)])
    );
    assert_eq!(
        assemble(&[b"\r 10%|#\r 20%|##\r100%|###\n"]),
        owned(&[("10%|#", true), ("20%|##", true), ("100%|###", false)])
    );
}

#[test]
fn a_crlf_split_across_reads_is_still_one_line_end() {
    assert_eq!(
        assemble(&[b"first\r", b"\nsecond\n"]),
        owned(&[("first", false), ("second", false)])
    );
}

#[test]
fn a_multibyte_char_split_across_reads_is_decoded_whole() {
    let line: &[u8] = &[0x8a, 0xf9, 0x91, 0xb6, 0x82, 0xcc, 0x90, 0xda, 0x91, 0xb1];
    let got = assemble(&[&line[..3], &line[3..], b"\r\n"]);
    assert_eq!(got, owned(&[("既存の接続", false)]));
}

#[test]
fn the_last_line_without_a_newline_is_kept_and_blank_lines_are_not() {
    assert_eq!(
        assemble(&[b"a\n\n   \r\nlast"]),
        owned(&[("a", false), ("last", false)])
    );
}

#[test]
fn ansi_sequences_are_dropped_without_breaking_japanese() {
    let mut line: Vec<u8> = b"\x1b[31mError:\x1b[0m ".to_vec();
    line.extend_from_slice(&[
        0x83, 0x41, 0x83, 0x4e, 0x83, 0x5a, 0x83, 0x58, 0x82, 0xaa, 0x8b, 0x91, 0x94, 0xdb, 0x82,
        0xb3, 0x82, 0xea, 0x82, 0xdc, 0x82, 0xb5, 0x82, 0xbd,
    ]);
    line.extend_from_slice(b"\r\n");
    assert_eq!(
        assemble(&[&line]),
        owned(&[("Error: アクセスが拒否されました", false)])
    );
}

#[test]
fn a_nested_progress_bar_is_an_overwrite_too() {
    let got = assemble(&[b"\n\r 45%|####  | 900M/2.00G\x1b[A\n\r 46%|##### | 920M/2.00G\x1b[A\n"]);
    assert_eq!(
        got,
        owned(&[("45%|####  | 900M/2.00G", true), ("46%|##### | 920M/2.00G", true)])
    );
}

#[test]
fn an_endless_line_is_cut_at_the_limit() {
    let long = vec![b'x'; MAX_LINE_BYTES + 10];
    let got = assemble(&[&long]);
    assert_eq!(got.len(), 2);
    assert_eq!(got[0].0.len(), MAX_LINE_BYTES);
    assert_eq!(got[1].0.len(), 10);
}

#[test]
fn it_does_not_matter_where_a_read_ends() {
    let all: &[u8] = b"a\r\nb\rc\x1b[A\n\xe3\x81\x82\r\n last";
    let whole = assemble(&[all]);
    for k in 0..=all.len() {
        assert_eq!(assemble(&[&all[..k], &all[k..]]), whole, "cut at {k}");
    }
}

#[test]
fn what_is_left_holds_no_escape() {
    let (plain, moved) = strip_ansi(&b"\x1b[1;31mred\x1b[0m\x1b[2A".to_vec());
    assert_eq!(plain, b"red".to_vec());
    assert!(moved);
    let (plain, moved) = strip_ansi(&b"plain".to_vec());
    assert_eq!(plain, b"plain".to_vec());
    assert!(!moved);
}

#[test]
fn a_reader_reports_lines_with_their_stream() {
    let mut r = OutputReader::new(Stream::Stderr);
    assert_eq!(r.on_bytes(&b"half".to_vec()), vec![Msg::Activity]);
    assert_eq!(
        r.on_bytes(&b" line\n".to_vec()),
        vec![Msg::Line {
            stream: Stream::Stderr,
            text: "half line".to_string(),
            overwritten: false
        }]
    );
    let last = r.on_failure("pipe broke");
    assert!(last.contains(&Msg::Line {
        stream: Stream::Stderr,
        text: "(出力の読み取りが止まりました: pipe broke)".to_string(),
        overwritten: false
    }));
}

const SECOND: u64 = 1_000_000_000;

#[test]
fn a_child_without_any_sign_of_life_is_stopped() {
    let still = Activity { cpu: 7, io: 9 };
    let mut w = Watch::new(0, Some(2 * SECOND), None, true, Some(still));
    assert_eq!(w.first(), WatchAction::Receive);
    assert_eq!(w.step(WatchEvent::Quiet), WatchAction::Poll);
    assert_eq!(w.step(WatchEvent::StillRunning { now: SECOND }), WatchAction::Count);
    assert_eq!(
        w.step(WatchEvent::Counted { now: SECOND, activity: Some(still) }),
        WatchAction::Receive
    );
    assert_eq!(w.step(WatchEvent::StillRunning { now: 2 * SECOND }), WatchAction::Count);
    assert_eq!(
        w.step(WatchEvent::Counted { now: 2 * SECOND, activity: Some(still) }),
        WatchAction::Finish(Ended::Stalled)
    );
}

#[test]
fn a_quiet_child_that_is_at_work_is_not_stopped() {
    let mut w = Watch::new(0, Some(2 * SECOND), None, true, Some(Activity { cpu: 0, io: 0 }));
    for k in 1..20u64 {
        assert_eq!(w.step(WatchEvent::StillRunning { now: k * SECOND }), WatchAction::Count);
        assert_eq!(
            w.step(WatchEvent::Counted {
                now: k * SECOND,
                activity: Some(Activity { cpu: 0, io: k })
            }),
            WatchAction::Receive
        );
    }
}

#[test]
fn a_child_that_cannot_be_counted_is_never_taken_for_stalled() {
    let mut w = Watch::new(0, Some(SECOND), None, false, None);
    assert_eq!(w.step(WatchEvent::Closed), WatchAction::Poll);
    assert_eq!(w.step(WatchEvent::StillRunning { now: 3600 * SECOND }), WatchAction::Sleep);
}

#[test]
fn a_deadline_stops_a_child_at_work() {
    let mut w = Watch::new(0, None, Some(10 * SECOND), true, None);
    assert_eq!(w.step(WatchEvent::Message { now: 9 * SECOND }), WatchAction::Poll);
    assert_eq!(
        w.step(WatchEvent::StillRunning { now: 10 * SECOND }),
        WatchAction::Finish(Ended::TimedOut)
    );
    assert_eq!(w.step(WatchEvent::Exited), WatchAction::Finish(Ended::Exited));
}

#[test]
fn what_a_child_started_is_stopped_with_it() {
    assert_eq!(cleanup(true, Ended::Exited), Cleanup::StopTree);
    assert_eq!(cleanup(false, Ended::Stalled), Cleanup::StopChild);
    assert_eq!(cleanup(false, Ended::Exited), Cleanup::Nothing);
}

#[test]
fn reads_and_writes_count_beside_processor_time() {
    let quiet = IoCounters {
        read_bytes: 1,
        write_bytes: 2,
        other_bytes: 3,
        reads: 4,
        writes: 5,
        others: 6,
    };
    assert_eq!(activity(10, 20, quiet), Activity { cpu: 30, io: 21 });
    let wrote = IoCounters { write_bytes: 3, ..quiet };
    assert_ne!(activity(10, 20, wrote), activity(10, 20, quiet));
    let full = IoCounters { read_bytes: u64::MAX, ..quiet };
    assert_eq!(activity(0, 0, full).io, 19);
}
