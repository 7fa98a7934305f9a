use ugg::json::{JsonDoc, JsonField};
use ugg::paths::AssetPath;
use ugg::sidecar::{
    after_kill, after_wait, confirm_stop, identify_sidecar, judge_document, ledger_add,
    ledger_remove, live_sidecars, looks_like_our_sidecar, not_ready, orphan_candidates,
    ready_belongs_to, start_sidecar, stderr_broken, stderr_line, taken_by_a_new_child, tcp_reach,
    url_of, wait_for_ready_file, Connecting, HealthAnswer, Probe, Reach, ReadyFile, ReadyWait,
    ShutdownNext, StartRequest, StopCheck, Sweep, SweepAction, WaitOutcome,
};

fn answer(body: &str) -> Probe {
    identify_sidecar(Reach::Connected, &HealthAnswer::Body(body.to_string()))
}

#[test]
fn a_sidecar_is_identified_by_the_shape_of_its_answer() {
    assert_eq!(answer(r#"{"status": "ok", "gpu": "RTX 5080", "mock": false}"#), Probe::Ours);
    assert_eq!(
        answer(r#"{"status": "no_gpu", "gpu": null, "mock": false}"#),
        Probe::Ours,
        "503 で返る形も自分のもの（GPU 不在でこれを返す）"
    );
    for other in [
        r#"{"status": "ok"}"#,
        r#"{"status": "ok", "gpu": null}"#,
        r#"{"ok": true, "mock": false}"#,
        r#""ok""#,
        "[1, 2, 3]",
    ] {
        assert_eq!(
            answer(other),
            Probe::NotOurs,
            "他人のポートへ shutdown を投げてはいけない: {other}"
        );
    }
    let built = JsonDoc::Object(vec![
        ("status".to_string(), JsonField::Text("ok".to_string())),
        ("gpu".to_string(), JsonField::Null),
        ("mock".to_string(), JsonField::Bool(true)),
    ]);
    assert!(looks_like_our_sidecar(&built));
    assert!(!looks_like_our_sidecar(&JsonDoc::Plain(JsonField::Array)));
    assert_eq!(judge_document(&None), Probe::NotOurs);
}

#[test]
fn the_ledger_keeps_every_sidecar() {
    let ledger = ledger_add(&vec![], ReadyFile { port: 50073, pid: 1 });
    let ledger = ledger_add(&ledger, ReadyFile { port: 59533, pid: 2 });
    assert_eq!(ledger.len(), 2, "2 つ目で 1 つ目を消してはいけない: {ledger:?}");

    let ledger = ledger_remove(&ledger, &ReadyFile { port: 50073, pid: 1 });
    assert_eq!(ledger.len(), 1);
    assert_eq!(ledger[0].port, 59533);

    let ledger = ledger_remove(&ledger, &ReadyFile { port: 59533, pid: 7 });
    assert_eq!(ledger.len(), 1, "同じポートを持つ別の子の記録を消してはいけない");
}

#[test]
fn the_ledger_does_not_duplicate_a_port() {
    let ledger = ledger_add(&vec![], ReadyFile { port: 50073, pid: 1 });
    let ledger = ledger_add(&ledger, ReadyFile { port: 50073, pid: 9 });
    assert_eq!(ledger.len(), 1);
    assert_eq!(ledger[0].pid, 9, "新しい方で置き換わること");
}

/// Runs a sweep over a ledger, with what is found behind each port.
fn sweep(
    ledger: &mut Vec<ReadyFile>,
    probe: fn(u16) -> Probe,
    stops: fn(u16) -> bool,
    asked: &mut Vec<u16>,
) -> usize {
    let mut s = Sweep::new(orphan_candidates(ledger, None));
    loop {
        match s.action() {
            SweepAction::ReadLedger => s.on_ledger(ledger),
            SweepAction::Identify(port) => {
                asked.push(port);
                s.on_probe(probe(port));
            }
            SweepAction::RequestShutdown(port) => s.on_stop(stops(port)),
            SweepAction::Remove(record) => {
                *ledger = ledger_remove(ledger, &record);
                s.on_removed();
            }
            SweepAction::Finish(n) => return n,
        }
    }
}

#[test]
fn a_finished_sweep_drops_the_dead_but_keeps_the_busy_and_a_new_child() {
    let mut ledger = vec![
        ReadyFile { port: 1001, pid: 1 },
        ReadyFile { port: 1002, pid: 2 },
        ReadyFile { port: 1003, pid: 3 },
    ];
    let mut s = Sweep::new(orphan_candidates(&ledger, None));
    let mut asked = Vec::new();
    loop {
        match s.action() {
            SweepAction::ReadLedger => s.on_ledger(&ledger),
            SweepAction::Identify(port) => {
                asked.push(port);
                ledger = ledger_add(&ledger, ReadyFile { port: 1003, pid: 999 });
                s.on_probe(if port == 1001 { Probe::Unanswered } else { Probe::NotOurs });
            }
            SweepAction::RequestShutdown(_) => panic!("nothing is ours"),
            SweepAction::Remove(record) => {
                ledger = ledger_remove(&ledger, &record);
                s.on_removed();
            }
            SweepAction::Finish(n) => {
                assert_eq!(n, 0);
                break;
            }
        }
    }
    assert_eq!(
        ledger,
        vec![ReadyFile { port: 1001, pid: 1 }, ReadyFile { port: 1003, pid: 999 }]
    );
    assert_eq!(asked, vec![1001, 1002], "新しい子へ確かめに行ってはいけない");
}

#[test]
fn a_sweep_keeps_the_record_of_an_orphan_it_could_not_stop() {
    let mut ledger =
        vec![ReadyFile { port: 2001, pid: 1 }, ReadyFile { port: 2002, pid: 2 }];
    let mut asked = Vec::new();
    let stopped = sweep(&mut ledger, |_| Probe::Ours, |port| port == 2001, &mut asked);
    assert_eq!(stopped, 1, "止められたのは 1 件だけ");
    assert_eq!(ledger, vec![ReadyFile { port: 2002, pid: 2 }]);
    assert_eq!(asked, vec![2001, 2002]);
}

#[test]
fn an_interrupted_sweep_keeps_the_records_it_has_not_checked() {
    let ledger = vec![ReadyFile { port: 3001, pid: 1 }, ReadyFile { port: 3002, pid: 2 }];
    let mut s = Sweep::new(orphan_candidates(&ledger, None));
    assert_eq!(s.action(), SweepAction::ReadLedger);
    s.on_ledger(&ledger);
    assert_eq!(s.action(), SweepAction::Identify(3001), "消す前に確かめる");
}

#[test]
fn an_orphan_that_answers_but_stays_is_not_counted_as_stopped() {
    assert_eq!(confirm_stop(true, Reach::Connected, 0, 8000), StopCheck::TryAgain);
    assert_eq!(confirm_stop(true, Reach::Connected, 8000, 8000), StopCheck::NotStopped);
    assert_eq!(confirm_stop(false, Reach::Refused, 0, 8000), StopCheck::NotStopped);
}

#[test]
fn an_orphan_that_answers_and_exits_is_confirmed_stopped() {
    assert_eq!(confirm_stop(true, Reach::Refused, 9000, 8000), StopCheck::Stopped);
}

#[test]
fn a_dead_port_is_not_mistaken_for_a_busy_one() {
    assert_eq!(
        identify_sidecar(tcp_reach(Connecting::Failed), &HealthAnswer::TimedOut),
        Probe::NotOurs,
        "拒否されたら死んでいる"
    );
}

#[test]
fn a_silent_listener_is_still_unanswered() {
    assert_eq!(
        identify_sidecar(tcp_reach(Connecting::Connected), &HealthAnswer::TimedOut),
        Probe::Unanswered,
        "つながったが答えない = 使用中でありうる"
    );
    assert_eq!(
        identify_sidecar(tcp_reach(Connecting::TimedOut), &HealthAnswer::Failed),
        Probe::Unanswered
    );
    assert_eq!(
        identify_sidecar(tcp_reach(Connecting::NotTried), &HealthAnswer::Failed),
        Probe::Unanswered
    );
    assert_eq!(
        identify_sidecar(tcp_reach(Connecting::Connected), &HealthAnswer::Failed),
        Probe::NotOurs
    );
}

#[test]
fn live_sidecars_are_counted_without_being_stopped() {
    let c = vec![
        ReadyFile { port: 1, pid: 1 },
        ReadyFile { port: 2, pid: 2 },
        ReadyFile { port: 3, pid: 3 },
    ];
    let p = vec![Probe::Ours, Probe::NotOurs, Probe::Unanswered];
    assert_eq!(live_sidecars(&c, &p), vec![1, 3]);
}

#[test]
fn a_shutdown_forgets_the_record_only_after_the_child_is_gone() {
    assert_eq!(after_wait(&WaitOutcome::Ended), ShutdownNext::Forget);
    assert_eq!(after_wait(&WaitOutcome::Elapsed), ShutdownNext::Kill);
    assert_eq!(
        after_wait(&WaitOutcome::Failed("x".to_string())),
        ShutdownNext::Keep("サイドカーの wait に失敗: x".to_string())
    );
    assert_eq!(after_kill(None), ShutdownNext::Forget);
    assert_eq!(
        after_kill(Some("y")),
        ShutdownNext::Keep("サイドカーの kill に失敗: y".to_string())
    );
}

#[test]
fn only_the_spawned_childs_ready_file_is_trusted() {
    let stale = ReadyFile { port: 60005, pid: 43140 };
    let fresh = ReadyFile { port: 62776, pid: 15316 };
    assert!(!ready_belongs_to(&stale, 15316), "前回の子の記録を信じてはいけない");
    assert!(ready_belongs_to(&fresh, 15316), "いま起動した子の記録は受け入れる");
    assert!(
        !ready_belongs_to(&ReadyFile { port: 1, pid: 0 }, 0),
        "pid を取れなかった（子が終了済み）なら、偶然 0 の記録にも一致させない"
    );
}

#[test]
fn waiting_ignores_a_stale_ready_file() {
    let stale = Some(ReadyFile { port: 60005, pid: 43140 });
    assert_eq!(wait_for_ready_file(&stale, 15316, 500, 500), ReadyWait::TryAgain);
    assert_eq!(wait_for_ready_file(&stale, 15316, 501, 500), ReadyWait::TimedOut);
    let fresh = Some(ReadyFile { port: 62776, pid: 15316 });
    assert_eq!(wait_for_ready_file(&fresh, 15316, 501, 500), ReadyWait::Ready(62776));
    assert_eq!(wait_for_ready_file(&None, 15316, 0, 500), ReadyWait::TryAgain);
    assert_eq!(
        not_ready("C:/r.json"),
        "サイドカーの起動待ちでタイムアウトしました (ready.json: C:/r.json): timeout"
    );
}

#[test]
fn the_last_ready_file_is_a_candidate_unless_the_ledger_has_its_port() {
    let ledger = vec![ReadyFile { port: 5, pid: 50 }];
    assert_eq!(
        orphan_candidates(&ledger, Some(ReadyFile { port: 6, pid: 60 })),
        vec![ReadyFile { port: 5, pid: 50 }, ReadyFile { port: 6, pid: 0 }]
    );
    assert_eq!(orphan_candidates(&ledger, Some(ReadyFile { port: 5, pid: 60 })), ledger);
    assert!(taken_by_a_new_child(&ledger, &ReadyFile { port: 5, pid: 51 }));
    assert!(!taken_by_a_new_child(&ledger, &ReadyFile { port: 5, pid: 50 }));
}

#[test]
fn a_line_that_is_not_utf8_does_not_stop_the_stderr_pump() {
    assert_eq!(stderr_line(&b"before\r\n".to_vec()), "before", "行末の CR を落としていない");
    assert_eq!(
        stderr_line(&b"ConnectionResetError: \x8a\xf9\x91\xb6\n".to_vec()),
        "ConnectionResetError: 既存"
    );
    let broken = stderr_line(&b"broken: \xff\xfe\n".to_vec());
    assert!(broken.starts_with("broken: ") && broken.contains('\u{FFFD}'), "{broken}");
    assert_eq!(stderr_line(&b"after".to_vec()), "after");
}

#[test]
fn a_failed_read_leaves_its_reason() {
    assert_eq!(stderr_broken("pipe broke"), "(stderr の読み取りが止まりました: pipe broke)");
}

#[test]
fn a_sidecar_is_started_with_the_models_of_the_record() {
    let mut request = StartRequest {
        python: "py.exe",
        python_is_file: true,
        sidecar: "s.py",
        sidecar_is_file: true,
        root: "R",
        ready: "R/ready.json",
        mock: true,
    };
    let args = start_sidecar(&request, &None).unwrap();
    assert_eq!(
        args[..9].to_vec(),
        vec![
            "s.py",
            "--asset-dir",
            "R",
            "--ready-file",
            "R/ready.json",
            "--port",
            "0",
            "--log-level",
            "warning"
        ]
    );
    assert_eq!(args[args.len() - 2..].to_vec(), vec!["--no-download", "--mock"]);
    let read = ugg::pins::model_args_for_read(&None).0;
    assert_eq!(args[9..args.len() - 2].to_vec(), read);
    request.sidecar_is_file = false;
    assert_eq!(
        start_sidecar(&request, &None),
        Err("sidecar.py が配置されていません: s.py".to_string())
    );
    request.python_is_file = false;
    assert!(start_sidecar(&request, &None).unwrap_err().starts_with(
        "Python ランタイムが未配置です (py.exe). 設定パネルから"
    ));
    assert_eq!(url_of(8080, "/health"), "http://127.0.0.1:8080/health");
    let root = AssetPath::new("R");
    assert_eq!(
        ugg::sidecar::ledger_path(&root).file_name().as_deref(),
        Some("sidecars.json")
    );
}
