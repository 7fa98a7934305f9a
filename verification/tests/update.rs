use std::collections::BTreeMap;

use ugg::gate::GateOutcome;
use ugg::names::NameMap;
use ugg::plan::{other_args, pin_args, restore_args, torch_args, update_plan};
use ugg::packages::{
    describe_package, describe_unrestored, package_entries, restore_steps, BackupEntry,
    RestoreStep, SiteEntry,
};
use ugg::update::{
    describe_cause, describe_not_recorded, describe_refused, describe_undone, gate_event,
    imports_event, restored_event, torch_event, update_refusal, versions_event, Cause, Ending,
    Failure, Update, UpdateAction, UpdateEvent,
};
use ugg::versions::ImportCheck;

fn strings(v: &[&str]) -> Vec<String> {
    v.iter().map(|s| s.to_string()).collect()
}

fn map(pairs: &[(&str, &str)]) -> NameMap {
    let mut m = NameMap::new();
    for (k, v) in pairs {
        m.insert(k, v);
    }
    m
}

#[test]
fn the_update_plan_has_a_fixed_order() {
    let outdated = strings(&[
        "irodori_tts",
        "model_synth",
        "silentcipher",
        "torch",
        "transformers",
        "dacvae",
        "model_codec",
        "no_such_thing",
    ]);
    let plan = update_plan(&outdated);
    assert_eq!(plan.pins, ["silentcipher", "dacvae", "irodori_tts"], "依存の順");
    assert_eq!(plan.torch.len(), 1, "torch は CUDA の index 側: {plan:?}");
    assert!(plan.torch[0].starts_with("torch"), "{plan:?}");
    assert_eq!(plan.other.len(), 1, "transformers はその他の側: {plan:?}");
    assert!(plan.other[0].starts_with("transformers"), "{plan:?}");
    assert!(plan.models, "モデルは 1 回にまとめて確かめる");
    assert_eq!(plan.skipped, ["no_such_thing"]);
    assert_eq!(plan.names.len(), 7, "入れ直すものは全部記録に回る: {plan:?}");
    assert!(plan.touches_packages());
    assert!(
        !update_plan(&strings(&["model_synth"])).touches_packages(),
        "モデルだけなら版の控えは要らない"
    );
}

#[test]
fn pip_is_given_what_each_step_needs() {
    assert_eq!(
        torch_args(&strings(&["torch>=2"])),
        ["--upgrade", "--index-url", "https://download.pytorch.org/whl/cu128", "torch>=2"]
    );
    assert_eq!(
        other_args(&strings(&["a"]), Some("c.txt")),
        ["--upgrade", "-c", "c.txt", "a"]
    );
    assert_eq!(other_args(&strings(&["a"]), None), ["--upgrade", "a"]);
    assert_eq!(pin_args("u"), ["--no-deps", "--force-reinstall", "u"]);
    assert_eq!(
        restore_args(&strings(&["a==1"]), false),
        ["--no-deps", "--force-reinstall", "a==1"]
    );
    assert_eq!(restore_args(&strings(&["t==1"]), true)[2], "--index-url");
}

/// Runs an update, answering each action; returns the actions and the ending.
fn run(outdated: &[&str], answer: &dyn Fn(UpdateAction) -> UpdateEvent) -> (Vec<UpdateAction>, Ending) {
    let mut u = Update::new(&update_plan(&strings(outdated)));
    let mut done = Vec::new();
    loop {
        let action = u.action();
        if let UpdateAction::Finish(end) = action {
            return (done, end);
        }
        done.push(action);
        u.step(answer(action));
    }
}

/// The answers of an update on which everything works, but for one action.
fn all_well(broken: Option<(UpdateAction, UpdateEvent)>) -> impl Fn(UpdateAction) -> UpdateEvent {
    let asked = std::cell::Cell::new(0);
    move |a| {
        if let Some((at, event)) = broken {
            if a == at {
                return event;
            }
        }
        match a {
            UpdateAction::LookForBackups | UpdateAction::ReadSnapshot => UpdateEvent::Missing,
            UpdateAction::CheckImports => {
                asked.set(asked.get() + 1);
                if asked.get() == 1 { UpdateEvent::Done } else { UpdateEvent::StillImports }
            }
            UpdateAction::Speak => UpdateEvent::Kept,
            _ => UpdateEvent::Done,
        }
    }
}

#[test]
fn an_update_of_the_models_alone_notes_no_versions() {
    let (actions, end) = run(&["model_synth"], &all_well(None));
    assert_eq!(end, Ending::Updated);
    assert!(!actions.contains(&UpdateAction::WriteSnapshot));
    assert!(actions.contains(&UpdateAction::FetchModels));
    assert!(actions.contains(&UpdateAction::Speak));
    assert_eq!(actions.last(), Some(&UpdateAction::Record));
}

#[test]
fn a_leftover_backup_is_restored_before_starting() {
    let first = std::cell::Cell::new(true);
    let (actions, end) = run(&[], &|a| match a {
        UpdateAction::LookForBackups if first.get() => {
            first.set(false);
            UpdateEvent::Found
        }
        UpdateAction::LookForBackups | UpdateAction::ReadSnapshot => UpdateEvent::Missing,
        _ => UpdateEvent::Done,
    });
    assert_eq!(end, Ending::Updated);
    assert_eq!(
        actions[..3].to_vec(),
        vec![
            UpdateAction::LookForBackups,
            UpdateAction::RestoreBackups,
            UpdateAction::DropBackups
        ]
    );
    assert!(!actions.contains(&UpdateAction::Speak), "何も変えていなければ確かめない");
}

#[test]
fn a_leftover_version_snapshot_is_not_dropped_silently() {
    let (actions, end) = run(&[], &|a| match a {
        UpdateAction::LookForBackups => UpdateEvent::Missing,
        UpdateAction::ReadSnapshot => UpdateEvent::Found,
        UpdateAction::AskVersions => UpdateEvent::Failed,
        other => panic!("{other:?}"),
    });
    assert_eq!(end, Ending::Refused(Failure::OldVersions));
    assert!(!actions.contains(&UpdateAction::RemoveSnapshot), "控えを残す");
    let told = describe_refused(Failure::OldVersions, "x", &vec![], "p");
    assert!(told.contains("前回の更新"), "{told}");
}

#[test]
fn a_later_failure_rolls_back_what_earlier_steps_replaced() {
    let looked = std::cell::Cell::new(0);
    let versions = std::cell::Cell::new(0);
    let imports = std::cell::Cell::new(0);
    let (actions, end) = run(&["silentcipher", "dacvae", "model_synth"], &|a| match a {
        UpdateAction::LookForBackups => {
            looked.set(looked.get() + 1);
            if looked.get() == 1 { UpdateEvent::Missing } else { UpdateEvent::Found }
        }
        UpdateAction::ReadSnapshot => UpdateEvent::Missing,
        UpdateAction::AskVersions => {
            versions.set(versions.get() + 1);
            if versions.get() == 1 { UpdateEvent::Done } else { UpdateEvent::Unchanged }
        }
        UpdateAction::CheckImports => {
            imports.set(imports.get() + 1);
            if imports.get() == 1 { UpdateEvent::Done } else { UpdateEvent::StillImports }
        }
        UpdateAction::FetchModels => UpdateEvent::Failed,
        _ => UpdateEvent::Done,
    });
    assert_eq!(end, Ending::Undone { cause: Cause::Models, clean: true });
    let fetch = actions.iter().position(|a| *a == UpdateAction::FetchModels).unwrap();
    assert!(actions[..fetch].contains(&UpdateAction::InstallPin(0)));
    assert!(actions[..fetch].contains(&UpdateAction::InstallPin(1)));
    assert_eq!(
        actions[fetch + 1..].to_vec(),
        vec![
            UpdateAction::LookForBackups,
            UpdateAction::RestoreBackups,
            UpdateAction::DropBackups,
            UpdateAction::AskVersions,
            UpdateAction::RemoveSnapshot,
        ],
        "戻せたら退避を捨てる"
    );
    let why = describe_cause(Cause::Models, "", "x");
    let message = describe_undone(&why, &vec![]);
    assert!(message.contains("HF モデルの取得に失敗しました"), "元の理由を残す: {message}");
    assert!(message.contains("元の版へ戻しました"), "戻したことを言う: {message}");
}

#[test]
fn nothing_is_changed_where_the_versions_cannot_be_noted() {
    let (actions, end) =
        run(&["torch"], &all_well(Some((UpdateAction::AskVersions, UpdateEvent::Failed))));
    assert_eq!(end, Ending::Refused(Failure::NoVersions));
    assert!(!actions.contains(&UpdateAction::InstallTorch));
    let (actions, end) =
        run(&["torch"], &all_well(Some((UpdateAction::WriteSnapshot, UpdateEvent::Failed))));
    assert_eq!(end, Ending::Refused(Failure::NoSnapshot));
    assert!(!actions.contains(&UpdateAction::InstallTorch));
}

#[test]
fn a_failed_check_is_made_again_after_the_update_was_undone() {
    let (actions, end) =
        run(&["model_synth"], &all_well(Some((UpdateAction::Speak, UpdateEvent::Broken))));
    assert_eq!(end, Ending::Undone { cause: Cause::Broken, clean: true });
    assert_eq!(actions.last(), Some(&UpdateAction::SpeakAgain));
    let (actions, end) =
        run(&["model_synth"], &all_well(Some((UpdateAction::Speak, UpdateEvent::NoVram))));
    assert_eq!(end, Ending::Undone { cause: Cause::Vram, clean: true });
    assert!(!actions.contains(&UpdateAction::SpeakAgain));
}

#[test]
fn what_was_found_decides_the_event() {
    let before = map(&[("torch", "2+cu128"), ("a", "1")]);
    assert_eq!(versions_event(&before, &before), UpdateEvent::Unchanged);
    assert_eq!(
        versions_event(&before, &map(&[("torch", "2+cu128"), ("a", "9")])),
        UpdateEvent::Changed { torch: false, other: true }
    );
    assert_eq!(
        versions_event(&before, &map(&[("a", "1")])),
        UpdateEvent::Changed { torch: true, other: false }
    );
    assert_eq!(restored_event(&before, &before), UpdateEvent::Restored);
    assert_eq!(restored_event(&before, &NameMap::new()), UpdateEvent::LeftBehind);
    assert_eq!(torch_event(&before, &map(&[("torch", "2")])), UpdateEvent::TorchLost);
    assert_eq!(torch_event(&before, &before), UpdateEvent::TorchKept);
    let ok = || vec![ImportCheck { module: "m".to_string(), failure: None }];
    assert_eq!(imports_event(&ok(), &ok()), UpdateEvent::StillImports);
    assert_eq!(imports_event(&ok(), &vec![]), UpdateEvent::Regressed);
    assert_eq!(gate_event(&GateOutcome::NoVoiceRef, None), UpdateEvent::Kept);
    assert_eq!(gate_event(&GateOutcome::OutOfMemory, None), UpdateEvent::NoVram);
    assert_eq!(gate_event(&GateOutcome::TimedOut, None), UpdateEvent::Broken);
}

#[test]
fn an_update_is_refused_without_python_or_for_python_itself() {
    assert_eq!(
        update_refusal(false, "p.exe", &vec![]).unwrap(),
        "Python ランタイムがありません。先に初回導入を行ってください: p.exe"
    );
    let why = update_refusal(true, "p.exe", &strings(&["dacvae", "python"])).unwrap();
    assert!(why.contains("`%APPDATA%\\ugg\\irodori\\python`"), "{why}");
    assert_eq!(update_refusal(true, "p.exe", &strings(&["dacvae"])), None);
}

#[test]
fn what_could_not_be_brought_back_is_named() {
    assert_eq!(
        describe_undone("e", &strings(&["a", "b"])),
        "e。元に戻せなかったもの: a / b（退避と控えは残してあり、次の更新の前にもう一度戻します）"
    );
    assert_eq!(describe_unrestored(&vec![]), None);
    assert_eq!(
        describe_unrestored(&strings(&["a", "b"])).as_deref(),
        Some("退避を戻せません: a, b")
    );
    assert_eq!(
        describe_not_recorded("w"),
        "入れ直しは成功しましたが、導入記録を書けませんでした: w"
    );
    assert_eq!(
        describe_refused(Failure::OldLeft, "", &strings(&["a==1"]), "note"),
        "前回の更新で入れ替わった依存を元の版へ戻せません（通信を確かめてから、もう一度更新してください）: a==1。控え: note"
    );
    assert_eq!(
        describe_cause(Cause::TorchLost, "", "w"),
        "w（GPU で合成できなくなるため、元に戻します）"
    );
    assert_eq!(
        describe_cause(Cause::PinInstall(0), "dacvae", "w"),
        "dacvae の入れ直しに失敗しました: w"
    );
}

fn backup(name: &str, is_dir: bool, complete: bool) -> BackupEntry {
    BackupEntry { name: name.to_string(), is_dir, complete }
}

#[test]
fn restoring_a_finished_aside_removes_the_new_install_first() {
    assert_eq!(
        restore_steps(&vec![backup("dacvae", true, true)]),
        vec![RestoreStep { name: "dacvae".to_string(), remove_first: true }]
    );
}

#[test]
fn restoring_an_unfinished_aside_keeps_the_original_left_behind() {
    assert_eq!(
        restore_steps(&vec![backup("dacvae", true, false)]),
        vec![RestoreStep { name: "dacvae".to_string(), remove_first: false }]
    );
}

#[test]
fn files_in_the_backup_dir_are_not_mistaken_for_backups() {
    assert!(restore_steps(&vec![
        backup("dacvae.aside-complete", false, false),
        backup("versions.json", false, false),
    ])
    .is_empty());
}

#[test]
fn moving_a_missing_package_is_not_an_error() {
    assert!(package_entries(false, &strings(&["torch"]), "silentcipher").is_empty());
}

#[test]
fn move_aside_does_not_touch_similarly_named_packages() {
    let entries = strings(&[
        "dacvae",
        "dacvae-1.0.0.dist-info",
        "dacvae_extra",
        "dacvae_extra-2.0.0.dist-info",
    ]);
    assert_eq!(
        package_entries(true, &entries, "dacvae"),
        ["dacvae", "dacvae-1.0.0.dist-info"]
    );
}

#[test]
fn a_package_is_described_with_where_it_came_from() {
    let entries = vec![
        SiteEntry {
            name: "dacvae-1.0.dist-info".to_string(),
            direct_url: Some("{\"url\":\"https://x\"}".to_string()),
        },
        SiteEntry { name: "dacvae-2.0.dist-info".to_string(), direct_url: None },
        SiteEntry { name: "other-2.0.dist-info".to_string(), direct_url: None },
    ];
    assert_eq!(
        describe_package(true, &entries, "dacvae"),
        "dir=true info=[dacvae-1.0.dist-info <- https://x, dacvae-2.0.dist-info <- (url なし)]"
    );
    assert_eq!(describe_package(false, &vec![], "dacvae"), "dir=false info=[]");
}

type Site = BTreeMap<String, &'static str>;

fn site(pairs: &[(&str, &'static str)]) -> Site {
    pairs.iter().map(|(k, v)| (k.to_string(), *v)).collect()
}

/// The names that belong to the package.
fn listed(site: &Site, pkg: &str) -> Vec<String> {
    let names: Vec<String> = site.keys().cloned().collect();
    package_entries(site.contains_key(pkg), &names, pkg)
}

/// Moves the first `n` entries of a package aside.
fn set_aside(site: &mut Site, pkg: &str, n: usize) -> Site {
    let mut aside = Site::new();
    for name in listed(site, pkg).into_iter().take(n) {
        let content = site.remove(&name).unwrap();
        aside.insert(name, content);
    }
    aside
}

/// Brings a package back.
fn bring_back(site: &mut Site, pkg: &str, aside: Site, complete: bool) {
    let steps = restore_steps(&vec![backup(pkg, true, complete)]);
    if steps[0].remove_first {
        for name in listed(site, pkg) {
            site.remove(&name);
        }
    }
    site.extend(aside);
}

#[test]
fn a_package_set_aside_comes_back_whatever_was_installed_meanwhile() {
    let before = site(&[
        ("dacvae", "old"),
        ("dacvae-1.0.dist-info", "old"),
        ("dacvae_extra", "other"),
        ("dacvae_extra-2.0.dist-info", "other"),
    ]);
    let mut now = before.clone();
    let aside = set_aside(&mut now, "dacvae", 9);
    assert_eq!(now.len(), 2, "the other package stays");
    now.insert("dacvae".to_string(), "half");
    now.insert("dacvae-2.0.dist-info".to_string(), "new");
    bring_back(&mut now, "dacvae", aside, true);
    assert_eq!(now, before);
}

#[test]
fn a_package_set_aside_in_part_comes_back() {
    let before = site(&[("dacvae", "old"), ("dacvae-1.0.dist-info", "old")]);
    for moved in 0..3 {
        let mut now = before.clone();
        let aside = set_aside(&mut now, "dacvae", moved);
        bring_back(&mut now, "dacvae", aside, false);
        assert_eq!(now, before, "{moved}");
    }
}

#[test]
fn a_plan_that_changes_anything_names_what_it_changes() {
    for name in ["torch", "numpy", "dacvae", "model_synth"] {
        let plan = update_plan(&strings(&["no_such_thing", name]));
        assert!(plan.touches_packages() || plan.models, "{name}");
        assert_eq!(plan.names, [name]);
    }
    let nothing = update_plan(&strings(&["no_such_thing"]));
    assert!(!nothing.touches_packages() && !nothing.models && nothing.names.is_empty());
}
