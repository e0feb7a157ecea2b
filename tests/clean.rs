use ferium::clean::{
    clean, duplicate_warning, find_dupes_by_key, must_delete, remove_duplicates, ArtifactRequest, DisposalAction,
    OverrideEntry,
};

fn request(filename: &str, length: u64) -> ArtifactRequest<u32> {
    ArtifactRequest { filename: filename.to_string(), length, fetch: length as u32 }
}

fn entry(name: &str) -> OverrideEntry<String> {
    OverrideEntry { name: name.to_string(), source: format!("/overrides/{name}") }
}

fn names(v: &[ArtifactRequest<u32>]) -> Vec<String> {
    v.iter().map(|a| a.filename.clone()).collect()
}

fn strings(v: &[&str]) -> Vec<String> {
    v.iter().map(|s| s.to_string()).collect()
}

#[test]
fn already_satisfied() {
    let inventory = strings(&["mod-a.jar"]);
    let mut to_download = vec![request("mod-a.jar", 1024)];
    let mut to_install: Vec<OverrideEntry<String>> = Vec::new();
    let plan = clean(&inventory, &mut to_download, &mut to_install);
    assert!(to_download.is_empty());
    assert!(plan.disposals.is_empty());
    assert!(plan.duplicates.is_empty());
}

#[test]
fn collision_warning() {
    let inventory: Vec<String> = Vec::new();
    let mut to_download = vec![request("mod-b.jar", 500), request("mod-b.jar", 900)];
    let mut to_install: Vec<OverrideEntry<String>> = Vec::new();
    let plan = clean(&inventory, &mut to_download, &mut to_install);
    assert_eq!(to_download.len(), 1);
    assert_eq!(to_download[0].filename, "mod-b.jar");
    assert_eq!(plan.duplicates, strings(&["mod-b.jar"]));
    let warning = duplicate_warning(&plan.duplicates);
    assert!(warning.contains("mod-b.jar"));
}

#[test]
fn warning_lists_every_dropped_name() {
    assert_eq!(
        duplicate_warning(&strings(&["a.jar", "b.jar"])),
        "Warning: duplicate files found: a.jar, b.jar. Remove the mod each belongs to"
    );
    assert_eq!(
        duplicate_warning(&strings(&["x.jar"])),
        "Warning: duplicate files found: x.jar. Remove the mod each belongs to"
    );
}

#[test]
fn unexpected_file_archived() {
    let inventory = strings(&["unexpected.jar"]);
    let mut to_download = vec![request("mod-a.jar", 10)];
    let mut to_install = vec![entry("options.txt")];
    let plan = clean(&inventory, &mut to_download, &mut to_install);
    assert_eq!(plan.disposals.len(), 1);
    assert_eq!(plan.disposals[0].name, "unexpected.jar");
    assert_eq!(plan.disposals[0].action, DisposalAction::Archive);
    assert_eq!(names(&to_download), strings(&["mod-a.jar"]));
    assert_eq!(to_install.len(), 1);
}

#[test]
fn partial_remnant_deleted() {
    let inventory = strings(&["stale.jar.part"]);
    let mut to_download: Vec<ArtifactRequest<u32>> = Vec::new();
    let mut to_install: Vec<OverrideEntry<String>> = Vec::new();
    let plan = clean(&inventory, &mut to_download, &mut to_install);
    assert_eq!(plan.disposals.len(), 1);
    assert_eq!(plan.disposals[0].name, "stale.jar.part");
    assert_eq!(plan.disposals[0].action, DisposalAction::Delete);
}

#[test]
fn second_reconciliation_changes_nothing() {
    let inventory = strings(&["a.jar", "old.jar", "config.toml", "x.part"]);
    let desired = || vec![request("a.jar", 1), request("b.jar", 2), request("b.jar", 3)];
    let overrides = || vec![entry("config.toml"), entry("extra.toml")];
    let mut d1 = desired();
    let mut o1 = overrides();
    let plan1 = clean(&inventory, &mut d1, &mut o1);
    assert_eq!(plan1.disposals.len(), 2);
    let left: Vec<String> = inventory
        .iter()
        .filter(|n| !plan1.disposals.iter().any(|d| &d.name == *n))
        .cloned()
        .collect();
    let mut d2 = desired();
    let mut o2 = overrides();
    let plan2 = clean(&left, &mut d2, &mut o2);
    assert!(plan2.disposals.is_empty());
    assert_eq!(names(&d2), names(&d1));
    assert_eq!(names(&d2), strings(&["b.jar"]));
    assert_eq!(o2.len(), 1);
    assert_eq!(o2[0].name, "extra.toml");
    // after fetching and installing what was left, nothing remains to do
    let mut after_run = left.clone();
    after_run.extend(names(&d1));
    after_run.extend(o1.iter().map(|o| o.name.clone()));
    let mut d3 = desired();
    let mut o3 = overrides();
    let plan3 = clean(&after_run, &mut d3, &mut o3);
    assert!(d3.is_empty());
    assert!(o3.is_empty());
    assert!(plan3.disposals.is_empty());
}

#[test]
fn file_matching_download_and_override_keeps_the_override() {
    let inventory = strings(&["shared.jar"]);
    let mut to_download = vec![request("shared.jar", 5)];
    let mut to_install = vec![entry("shared.jar")];
    let plan = clean(&inventory, &mut to_download, &mut to_install);
    assert!(to_download.is_empty());
    assert_eq!(to_install.len(), 1);
    assert!(plan.disposals.is_empty());
}

#[test]
fn matching_override_is_dropped() {
    let inventory = strings(&["options.txt"]);
    let mut to_download: Vec<ArtifactRequest<u32>> = Vec::new();
    let mut to_install = vec![entry("options.txt"), entry("servers.dat")];
    let plan = clean(&inventory, &mut to_download, &mut to_install);
    assert_eq!(to_install.len(), 1);
    assert_eq!(to_install[0].name, "servers.dat");
    assert!(plan.disposals.is_empty());
}

#[test]
fn empty_everything() {
    let inventory: Vec<String> = Vec::new();
    let mut to_download: Vec<ArtifactRequest<u32>> = Vec::new();
    let mut to_install: Vec<OverrideEntry<String>> = Vec::new();
    let plan = clean(&inventory, &mut to_download, &mut to_install);
    assert!(to_download.is_empty() && to_install.is_empty());
    assert!(plan.disposals.is_empty() && plan.duplicates.is_empty());
}

#[test]
fn dupes_are_found_after_sorting() {
    let mut v: Vec<ArtifactRequest<u32>> =
        ["3", "1", "3", "2", "1"].iter().map(|n| request(n, 0)).collect();
    let dupes = find_dupes_by_key(&mut v);
    assert_eq!(names(&v), strings(&["1", "1", "2", "3", "3"]));
    assert_eq!(dupes, vec![3, 0]);

    let mut v = vec![request("a", 1), request("a", 2)];
    assert_eq!(find_dupes_by_key(&mut v), vec![0]);

    let mut v = vec![request("y", 1), request("x", 2)];
    assert!(find_dupes_by_key(&mut v).is_empty());
    assert_eq!(names(&v), strings(&["x", "y"]));

    let mut v: Vec<ArtifactRequest<u32>> = Vec::new();
    assert!(find_dupes_by_key(&mut v).is_empty());
}

#[test]
fn one_of_each_filename_is_kept() {
    let mut v = vec![request("b", 1), request("a", 2), request("b", 3), request("a", 4)];
    let dropped = remove_duplicates(&mut v);
    assert_eq!(names(&v), strings(&["a", "b"]));
    assert!(v[0].length == 2 || v[0].length == 4);
    assert!(v[1].length == 1 || v[1].length == 3);
    assert_eq!(dropped, strings(&["a", "b"]));
}

#[test]
fn disposals_follow_inventory_order() {
    let inventory = strings(&["z.jar", "counterpart", "a.jar", "p.part", "part"]);
    let mut to_download: Vec<ArtifactRequest<u32>> = Vec::new();
    let mut to_install: Vec<OverrideEntry<String>> = Vec::new();
    let plan = clean(&inventory, &mut to_download, &mut to_install);
    let got: Vec<(String, DisposalAction)> =
        plan.disposals.iter().map(|d| (d.name.clone(), d.action)).collect();
    assert_eq!(
        got,
        vec![
            ("z.jar".to_string(), DisposalAction::Archive),
            ("counterpart".to_string(), DisposalAction::Archive),
            ("a.jar".to_string(), DisposalAction::Archive),
            ("p.part".to_string(), DisposalAction::Delete),
            ("part".to_string(), DisposalAction::Archive),
        ]
    );
}

#[test]
fn failed_move_falls_back_to_delete() {
    assert!(must_delete(DisposalAction::Delete, false));
    assert!(must_delete(DisposalAction::Delete, true));
    assert!(must_delete(DisposalAction::Archive, false));
    assert!(!must_delete(DisposalAction::Archive, true));
}
