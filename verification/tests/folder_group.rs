use sidex_workspace::group::{create_folder_group, create_folder_group_in, GroupPlan};
use sidex_workspace::names::{decimal_string, default_group_name, sanitize_name, unique_path};
use sidex_workspace::paths::{basename, join_path, path_starts_with};
use sidex_workspace::plan::{add_folder_links, link_folders_into, LinkPlan, PlanEvent, PlanStep};

fn strings(v: &[&str]) -> Vec<String> {
    v.iter().map(|s| s.to_string()).collect()
}

fn folder_ok(canonical: &str) -> PlanEvent {
    PlanEvent::Folder { valid: Ok(()), is_dir: true, canonical: Ok(canonical.to_string()) }
}

#[test]
fn basename_takes_final_name() {
    assert_eq!(basename("/home/u/proj"), "proj");
    assert_eq!(basename("/home/u/proj/"), "proj");
    assert_eq!(basename("a//b/."), "b");
    assert_eq!(basename("proj"), "proj");
    assert_eq!(basename("/"), "folder");
    assert_eq!(basename(""), "folder");
    assert_eq!(basename("."), "folder");
    assert_eq!(basename("a/.."), "folder");
    assert_eq!(basename("..."), "...");
}

#[test]
fn join_follows_path_rules() {
    assert_eq!(join_path("/base", "name"), "/base/name");
    assert_eq!(join_path("/base/", "name"), "/base/name");
    assert_eq!(join_path("", "name"), "name");
    assert_eq!(join_path("/base", "/abs"), "/abs");
}

#[test]
fn starts_with_compares_whole_components() {
    assert!(path_starts_with("/a/b/c", "/a/b"));
    assert!(path_starts_with("/a/b", "/a/b"));
    assert!(path_starts_with("/a/b/", "/a/b"));
    assert!(path_starts_with("/a/./b", "/a/b"));
    assert!(!path_starts_with("/a/bc", "/a/b"));
    assert!(!path_starts_with("/a", "/a/b"));
    assert!(!path_starts_with("a/b", "/a"));
    assert!(!path_starts_with("./a", "a"));
    assert!(path_starts_with("/x", "/"));
    assert!(path_starts_with("/x", ""));
}

#[test]
fn decimal_is_plain() {
    assert_eq!(decimal_string(0), "0");
    assert_eq!(decimal_string(7), "7");
    assert_eq!(decimal_string(10), "10");
    assert_eq!(decimal_string(1234567890), "1234567890");
    assert_eq!(decimal_string(u64::MAX), "18446744073709551615");
}

#[test]
fn sanitize_replaces_reserved_and_control() {
    assert_eq!(sanitize_name("a/b\\c:d*e?f\"g<h>i|j", false), "a-b-c-d-e-f-g-h-i-j");
    assert_eq!(sanitize_name("tab\there", false), "tab-here");
    assert_eq!(sanitize_name("x\u{7f}y\u{9f}z", false), "x-y-z");
}

#[test]
fn sanitize_trims_space_then_dots() {
    assert_eq!(sanitize_name("  my group  ", false), "my group");
    assert_eq!(sanitize_name("..hidden..", false), "hidden");
    assert_eq!(sanitize_name(" . a . ", false), " a ");
    assert_eq!(sanitize_name("\u{3000}wide\u{a0}", false), "wide");
    // A leading tab is a control character and becomes '-', so it stays.
    assert_eq!(sanitize_name("\tx", false), "-x");
}

#[test]
fn sanitize_falls_back_when_empty() {
    assert_eq!(sanitize_name("", false), "folder-group");
    assert_eq!(sanitize_name("   ", false), "folder-group");
    assert_eq!(sanitize_name("..", false), "folder-group");
    assert_eq!(sanitize_name(" . ", false), "folder-group");
}

#[test]
fn default_names_from_folders() {
    assert_eq!(default_group_name(&strings(&[])), "");
    assert_eq!(default_group_name(&strings(&["/w/app"])), "app");
    assert_eq!(default_group_name(&strings(&["/w/app", "/w/lib/"])), "app-lib");
    assert_eq!(default_group_name(&strings(&["/w/app", "/w/lib", "/w/c"])), "app-lib-and-1-more");
    assert_eq!(
        default_group_name(&strings(&["/a", "/", "/c", "/d", "/e"])),
        "a-folder-and-3-more"
    );
}

#[test]
fn unique_path_candidates() {
    assert_eq!(unique_path("/g", "team", 0), "/g/team");
    assert_eq!(unique_path("/g", "team", 1), "/g/team-2");
    assert_eq!(unique_path("/g/", "team", 2), "/g/team-3");
    assert_eq!(unique_path("/g", "team", u32::MAX), "/g/team-4294967296");
}

/// Runs a linking plan against scripted answers, collecting the operations.
fn drive_links(plan: &mut LinkPlan, answers: Vec<PlanEvent>) -> Vec<PlanStep> {
    let mut seen = vec![plan.next_step()];
    for a in answers {
        seen.push(plan.step(a));
    }
    seen
}

#[test]
fn link_plan_links_each_folder() {
    let mut plan = link_folders_into("/g/grp".to_string(), strings(&["/w/app", "/w/lib"]));
    let steps = drive_links(
        &mut plan,
        vec![
            PlanEvent::Canonical(Ok("/real/grp".to_string())),
            folder_ok("/real/app"),
            PlanEvent::Taken(false),
            PlanEvent::Done(Ok(())),
            folder_ok("/real/lib"),
            PlanEvent::Taken(true),
            PlanEvent::Taken(false),
            PlanEvent::Done(Ok(())),
        ],
    );
    let texts: Vec<String> = steps.iter().map(|s| format!("{s:?}")).collect();
    assert_eq!(texts[0], "Canonicalize(\"/g/grp\")");
    assert_eq!(texts[1], "InspectFolder(\"/w/app\")");
    assert_eq!(texts[2], "Probe(\"/g/grp/app\")");
    assert_eq!(texts[3], "MakeLink { target: \"/real/app\", link: \"/g/grp/app\" }");
    assert_eq!(texts[4], "InspectFolder(\"/w/lib\")");
    assert_eq!(texts[5], "Probe(\"/g/grp/lib\")");
    assert_eq!(texts[6], "Probe(\"/g/grp/lib-2\")");
    assert_eq!(texts[7], "MakeLink { target: \"/real/lib\", link: \"/g/grp/lib-2\" }");
    assert_eq!(texts[8], "Finish");
    assert_eq!(plan.outcome(), Some(Ok(strings(&["/g/grp/app", "/g/grp/lib-2"]))));
}

#[test]
fn link_plan_refuses_cycles() {
    let mut plan = link_folders_into("/w/app/sub".to_string(), strings(&["/w/app"]));
    plan.step(PlanEvent::Canonical(Ok("/w/app/sub".to_string())));
    let last = plan.step(folder_ok("/w/app"));
    assert!(matches!(last, PlanStep::Finish));
    assert_eq!(
        plan.outcome(),
        Some(Err(
            "/w/app: linking a folder into itself or a descendant would create a cycle".to_string()
        ))
    );

    let mut same = link_folders_into("/w/app".to_string(), strings(&["/w/app"]));
    same.step(PlanEvent::Canonical(Ok("/w/app".to_string())));
    same.step(folder_ok("/w/app"));
    assert!(matches!(same.outcome(), Some(Err(_))));

    // A sibling whose name merely shares a prefix is not a cycle.
    let mut sib = link_folders_into("/w/app2".to_string(), strings(&["/w/app"]));
    sib.step(PlanEvent::Canonical(Ok("/w/app2".to_string())));
    let next = sib.step(folder_ok("/w/app"));
    assert!(matches!(next, PlanStep::Probe(p) if p == "/w/app2/app"));
}

#[test]
fn link_plan_reports_failures() {
    let mut plan = link_folders_into("/g".to_string(), strings(&["/w/a"]));
    plan.step(PlanEvent::Canonical(Err("No such file or directory (os error 2)".to_string())));
    assert_eq!(
        plan.outcome(),
        Some(Err("/g: No such file or directory (os error 2)".to_string()))
    );

    let mut plan = link_folders_into("/g".to_string(), strings(&["/w/a"]));
    plan.step(PlanEvent::Canonical(Ok("/g".to_string())));
    plan.step(PlanEvent::Folder {
        valid: Ok(()),
        is_dir: false,
        canonical: Ok("/w/a".to_string()),
    });
    assert_eq!(plan.outcome(), Some(Err("/w/a: not a directory".to_string())));

    let mut plan = link_folders_into("/g".to_string(), strings(&["/w/a"]));
    plan.step(PlanEvent::Canonical(Ok("/g".to_string())));
    plan.step(PlanEvent::Folder {
        valid: Err("bad path".to_string()),
        is_dir: true,
        canonical: Ok("/w/a".to_string()),
    });
    assert_eq!(plan.outcome(), Some(Err("bad path".to_string())));

    let mut plan = link_folders_into("/g".to_string(), strings(&["/w/a"]));
    plan.step(PlanEvent::Canonical(Ok("/g".to_string())));
    plan.step(PlanEvent::Folder {
        valid: Ok(()),
        is_dir: true,
        canonical: Err("denied".to_string()),
    });
    assert_eq!(plan.outcome(), Some(Err("/w/a: denied".to_string())));

    let mut plan = link_folders_into("/g".to_string(), strings(&["/w/a"]));
    plan.step(PlanEvent::Canonical(Ok("/g".to_string())));
    plan.step(folder_ok("/w/a"));
    plan.step(PlanEvent::Taken(false));
    plan.step(PlanEvent::Done(Err("File exists (os error 17)".to_string())));
    assert_eq!(
        plan.outcome(),
        Some(Err("failed to link /g/a -> /w/a: File exists (os error 17)".to_string()))
    );
}

#[test]
fn link_plan_ignores_answers_that_do_not_fit() {
    let mut plan = link_folders_into("/g".to_string(), strings(&["/w/a"]));
    let step = plan.step(PlanEvent::Taken(true));
    assert!(matches!(step, PlanStep::Canonicalize(p) if p == "/g"));
    assert_eq!(plan.outcome(), None);
}

#[test]
fn link_plan_with_no_folders() {
    let mut plan = link_folders_into("/g".to_string(), Vec::new());
    plan.step(PlanEvent::Canonical(Ok("/g".to_string())));
    assert_eq!(plan.outcome(), Some(Ok(Vec::new())));
}

#[test]
fn add_links_requires_directory() {
    let mut plan = add_folder_links("/nope".to_string(), strings(&["/w/a"]));
    assert!(matches!(plan.next_step(), PlanStep::InspectFolder(p) if p == "/nope"));
    plan.step(PlanEvent::Folder { valid: Ok(()), is_dir: false, canonical: Err("x".to_string()) });
    assert_eq!(plan.outcome(), Some(Err("/nope: not a directory".to_string())));

    let mut plan = add_folder_links("/d".to_string(), strings(&["/w/a"]));
    let next = plan.step(PlanEvent::Folder {
        valid: Ok(()),
        is_dir: true,
        canonical: Ok("/d".to_string()),
    });
    assert!(matches!(next, PlanStep::Canonicalize(p) if p == "/d"));
}

fn drive_group(plan: &mut GroupPlan, answers: Vec<PlanEvent>) -> Vec<String> {
    let mut seen = vec![format!("{:?}", plan.next_step())];
    for a in answers {
        seen.push(format!("{:?}", plan.step(a)));
    }
    seen
}

#[test]
fn group_plan_creates_group() {
    let mut plan = create_folder_group_in(
        None,
        strings(&["/w/app", "/w/lib"]),
        Some("/home/u".to_string()),
        false,
    );
    let steps = drive_group(
        &mut plan,
        vec![
            PlanEvent::Done(Ok(())),
            PlanEvent::Taken(true),
            PlanEvent::Taken(false),
            PlanEvent::Done(Ok(())),
            PlanEvent::Canonical(Ok("/home/u/sidex-groups/app-lib-2".to_string())),
            folder_ok("/w/app"),
            PlanEvent::Taken(false),
            PlanEvent::Done(Ok(())),
            folder_ok("/w/lib"),
            PlanEvent::Taken(false),
            PlanEvent::Done(Ok(())),
        ],
    );
    assert_eq!(steps[0], "CreateDirAll(\"/home/u/sidex-groups\")");
    assert_eq!(steps[1], "Probe(\"/home/u/sidex-groups/app-lib\")");
    assert_eq!(steps[2], "Probe(\"/home/u/sidex-groups/app-lib-2\")");
    assert_eq!(steps[3], "CreateDir(\"/home/u/sidex-groups/app-lib-2\")");
    assert_eq!(steps[4], "Canonicalize(\"/home/u/sidex-groups/app-lib-2\")");
    assert_eq!(
        steps[7],
        "MakeLink { target: \"/w/app\", link: \"/home/u/sidex-groups/app-lib-2/app\" }"
    );
    assert_eq!(steps[11], "Finish");
    assert_eq!(plan.outcome(), Some(Ok("/home/u/sidex-groups/app-lib-2".to_string())));
}

#[test]
fn group_plan_uses_cleaned_chosen_name() {
    let mut plan = create_folder_group_in(
        Some(" my/group. ".to_string()),
        strings(&["/w/app"]),
        Some("/home/u/".to_string()),
        false,
    );
    let steps = drive_group(&mut plan, vec![PlanEvent::Done(Ok(()))]);
    assert_eq!(steps[1], "Probe(\"/home/u/sidex-groups/my-group\")");
}

#[test]
fn group_plan_removes_group_when_linking_fails() {
    let mut plan =
        create_folder_group_in(
            Some("g".to_string()),
            strings(&["/w/a"]),
            Some("/h".to_string()),
            false,
        );
    let steps = drive_group(
        &mut plan,
        vec![
            PlanEvent::Done(Ok(())),
            PlanEvent::Taken(false),
            PlanEvent::Done(Ok(())),
            PlanEvent::Canonical(Ok("/h/sidex-groups/g".to_string())),
            PlanEvent::Folder { valid: Ok(()), is_dir: false, canonical: Ok("/w/a".to_string()) },
        ],
    );
    assert_eq!(steps[5], "RemoveDirAll(\"/h/sidex-groups/g\")");
    assert_eq!(plan.outcome(), None);
    let last = plan.step(PlanEvent::Done(Err("busy".to_string())));
    assert!(matches!(last, PlanStep::Finish));
    assert_eq!(plan.outcome(), Some(Err("/w/a: not a directory".to_string())));
}

#[test]
fn group_plan_refusals() {
    let plan = create_folder_group_in(None, Vec::new(), Some("/h".to_string()), false);
    assert_eq!(plan.outcome(), Some(Err("no folders selected".to_string())));
    let plan = create_folder_group(Some("x".to_string()), Vec::new(), false);
    assert_eq!(plan.outcome(), Some(Err("no folders selected".to_string())));
    let plan = create_folder_group_in(None, strings(&["/w/a"]), None, false);
    assert_eq!(plan.outcome(), Some(Err("could not resolve home directory".to_string())));

    let mut plan = create_folder_group_in(None, strings(&["/w/a"]), Some("/h".to_string()), false);
    plan.step(PlanEvent::Done(Err("denied".to_string())));
    assert_eq!(plan.outcome(), Some(Err("/h/sidex-groups: denied".to_string())));

    let mut plan = create_folder_group_in(None, strings(&["/w/a"]), Some("/h".to_string()), false);
    plan.step(PlanEvent::Done(Ok(())));
    plan.step(PlanEvent::Taken(false));
    plan.step(PlanEvent::Done(Err("exists".to_string())));
    assert_eq!(plan.outcome(), Some(Err("/h/sidex-groups/a: exists".to_string())));
}

#[test]
fn sanitize_windows_device_names() {
    assert_eq!(sanitize_name("con", true), "con-group");
    assert_eq!(sanitize_name(" LPT1. ", true), "LPT1-group");
    assert_eq!(sanitize_name("Com9", true), "Com9-group");
    assert_eq!(sanitize_name("nul", true), "nul-group");
    assert_eq!(sanitize_name("console", true), "console");
    assert_eq!(sanitize_name("com10", true), "com10");
    assert_eq!(sanitize_name("", true), "folder-group");
    assert_eq!(sanitize_name("con", false), "con");
    assert_eq!(sanitize_name(" LPT1. ", false), "LPT1");
}

#[test]
fn group_plan_on_windows_renames_device_names() {
    let mut plan = create_folder_group_in(
        Some("AUX".to_string()),
        strings(&["/w/a"]),
        Some("/h".to_string()),
        true,
    );
    let step = plan.step(PlanEvent::Done(Ok(())));
    assert!(matches!(step, PlanStep::Probe(p) if p == "/h/sidex-groups/AUX-group"));
}
