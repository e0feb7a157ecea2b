use ferium::clean::{clean, ArtifactRequest, OverrideEntry};
use ferium::cli::Platform;
use ferium::install::{install_step, InstallAction, SourceKind};
use ferium::progress::{
    completion_line, installed_line, total_expected, ProgressState, RunStep, TransferEvent,
};

fn request(filename: &str, length: u64) -> ArtifactRequest<()> {
    ArtifactRequest { filename: filename.to_string(), length, fetch: () }
}

#[test]
fn full_run_success() {
    let inventory: Vec<String> = Vec::new();
    let mut to_download = vec![request("one.jar", 1500), request("two.jar", 2500)];
    let mut to_install = vec![OverrideEntry { name: "config".to_string(), source: "/o/config" }];
    let plan = clean(&inventory, &mut to_download, &mut to_install);
    assert!(plan.disposals.is_empty());
    assert_eq!(to_download.len(), 2);
    let mut state = ProgressState::new(&to_download);
    assert_eq!(state.total, 4000);
    assert_eq!(state.handle(TransferEvent::Progress(1000)), RunStep::Continue);
    assert_eq!(state.handle(TransferEvent::Progress(2500)), RunStep::Continue);
    let step = state.handle(TransferEvent::Finished { filename: "two.jar".to_string(), bytes: 2500 });
    assert_eq!(step, RunStep::Continue);
    assert_eq!(state.handle(TransferEvent::Progress(500)), RunStep::Continue);
    let step = state.handle(TransferEvent::Finished { filename: "one.jar".to_string(), bytes: 1500 });
    assert_eq!(step, RunStep::Done);
    assert_eq!(state.completed, 4000);
    assert!(state.is_complete());
    assert_eq!(state.log.len(), 2);
    assert!(state.log[0].ends_with("two.jar"));
    assert!(state.log[1].ends_with("one.jar"));
    assert_eq!(install_step(&to_install[0], SourceKind::Directory).ok(), Some(InstallAction::CopyDirectory));
}

#[test]
fn progress_never_decreases() {
    let reqs = vec![request("a", 10), request("b", 20)];
    let mut state = ProgressState::new(&reqs);
    let mut last = state.completed;
    for n in [3u64, 0, 7, 20, 1] {
        state.handle(TransferEvent::Progress(n));
        assert!(state.completed >= last);
        last = state.completed;
    }
    assert_eq!(state.completed, 31);
    state.inc(u64::MAX);
    assert_eq!(state.completed, u64::MAX);
}

#[test]
fn failure_aborts_the_run() {
    let reqs = vec![request("a", 10), request("b", 20)];
    let mut state = ProgressState::new(&reqs);
    assert_eq!(state.handle(TransferEvent::Failed), RunStep::Abort);
    assert!(state.failed);
    assert_eq!(state.handle(TransferEvent::Progress(5)), RunStep::Abort);
    assert_eq!(state.completed, 0);
}

#[test]
fn total_is_the_sum_of_lengths() {
    assert_eq!(total_expected(&vec![request("a", 1024), request("b", 1)]), 1025);
    assert_eq!(total_expected::<()>(&Vec::new()), 0);
    assert_eq!(total_expected(&vec![request("a", u64::MAX), request("b", 2)]), u64::MAX);
}

#[test]
fn completion_line_layout() {
    assert_eq!(completion_line("1.02 KB", "mod-a.jar"), "✓ Downloaded  1.02 KB  mod-a.jar");
    assert_eq!(completion_line("12 B", "x"), "✓ Downloaded     12 B  x");
    assert_eq!(completion_line("100.00 MB", "y"), "✓ Downloaded  100.00 MB  y");
}

#[test]
fn finished_transfer_logs_its_size() {
    let reqs = vec![request("mod.jar", 2048)];
    let mut state = ProgressState::new(&reqs);
    state.handle(TransferEvent::Finished { filename: "mod.jar".to_string(), bytes: 2048 });
    assert_eq!(state.log[0], "✓ Downloaded  2.05 KB  mod.jar");
}

#[test]
fn installed_line_layout() {
    assert_eq!(installed_line("config"), "✓ Installed          config");
}

#[test]
fn install_steps() {
    let e = OverrideEntry { name: "gone.txt".to_string(), source: () };
    assert_eq!(install_step(&e, SourceKind::File).ok(), Some(InstallAction::CopyFile));
    let err = install_step(&e, SourceKind::Other).err().unwrap();
    assert_eq!(err.name, "gone.txt");
    assert_eq!(err.message(), "cannot tell whether the override gone.txt is a file or a directory");
}

#[test]
fn platform_names() {
    assert_eq!(Platform::default(), Platform::Modrinth);
    assert_eq!(Platform::Modrinth.as_str(), "modrinth");
    assert_eq!(Platform::Curseforge.as_str(), "curseforge");
}

#[test]
fn many_chunks_reach_the_total() {
    let reqs = vec![request("a.jar", 1000), request("b.jar", 3)];
    let mut state = ProgressState::new(&reqs);
    for n in [1u64, 400, 2, 598] {
        assert_eq!(state.handle(TransferEvent::Progress(n)), RunStep::Continue);
    }
    assert_eq!(state.completed, 1001);
    assert!(!state.is_complete());
    state.handle(TransferEvent::Progress(2));
    assert_eq!(
        state.handle(TransferEvent::Finished { filename: "b.jar".to_string(), bytes: 3 }),
        RunStep::Continue
    );
    state.handle(TransferEvent::Progress(0));
    assert_eq!(
        state.handle(TransferEvent::Finished { filename: "a.jar".to_string(), bytes: 1000 }),
        RunStep::Done
    );
    assert_eq!(state.completed, state.total);
    assert!(state.is_complete());
}
