//! The texts that a clone is set up with.

use rbx_merge::setup::{
    append_line_if_missing, attr_value, attributes_body, begin_line, driver_config,
    driver_program, examine, ext_posture, extensions, first_shell_word, gitattributes_body,
    install_plan, merge_driver, refuse_driver_path, remove_block, remove_line_if_present, sh_quote,
    uninstall_plan, upsert_block, AttributesPlace, ExcludeAction, ExtPosture, Findings,
    InstallOptions,
};

const DRIVER: &str = "rbxdom";

#[test]
fn merge_driver_variants() {
    assert_eq!(
        merge_driver("rbx-merge", false),
        "rbx-merge merge --base %O --ours %A --theirs %B --out %A --path %P"
    );
    assert!(merge_driver("rbx-merge", true).ends_with("--stash-dir .rbxmerge/%P"));
}

#[test]
fn sh_quote_round_trips_through_first_shell_word() {
    assert_eq!(sh_quote("rbx-merge"), "rbx-merge");
    assert_eq!(sh_quote("~/bin/rbx-merge"), "~/bin/rbx-merge");
    assert_eq!(sh_quote("/opt/rbx merge/bin"), "'/opt/rbx merge/bin'");
    assert_eq!(sh_quote("a'b"), r"'a'\''b'");
    assert_eq!(sh_quote(r"C:\bin\rbx.exe"), r"'C:\bin\rbx.exe'");

    for path in ["rbx-merge", "/opt/rbx merge/bin", "a'b", r"C:\bin\rbx.exe"] {
        let command = format!("{} textconv", sh_quote(path));
        assert_eq!(first_shell_word(&command).as_deref(), Some(path));
    }
}

#[test]
fn first_shell_word_handles_quoting() {
    assert_eq!(
        first_shell_word("rbx-merge textconv").as_deref(),
        Some("rbx-merge")
    );
    assert_eq!(
        first_shell_word(r"'/a'\''b/x' merge").as_deref(),
        Some("/a'b/x")
    );
    assert_eq!(
        first_shell_word(r#""C:\Program Files\rbx.exe" merge"#).as_deref(),
        Some(r"C:\Program Files\rbx.exe")
    );
    assert_eq!(first_shell_word(""), None);
}

#[test]
fn attr_value_parses_check_attr_output() {
    let output = "probe.rbxl: merge: rbxdom\nprobe.rbxl: diff: unspecified";
    assert_eq!(attr_value(output, "merge").as_deref(), Some("rbxdom"));
    assert_eq!(attr_value(output, "diff").as_deref(), Some("unspecified"));
    assert_eq!(attr_value(output, "text"), None);
    // No substring false-positives: `rbxdom2` is not our driver.
    assert_eq!(
        attr_value("p.rbxl: merge: rbxdom2", "merge").as_deref(),
        Some("rbxdom2")
    );
}

#[test]
fn ext_posture_parses_gitattributes() {
    // Tabs and column alignment count as whitespace.
    assert_eq!(ext_posture("*.rbxl\t\tbinary", "rbxl"), ExtPosture::Safe);
    assert_eq!(ext_posture("*.rbxl   -merge", "rbxl"), ExtPosture::Safe);
    // Comments are ignored.
    assert_eq!(
        ext_posture("# *.rbxl binary", "rbxl"),
        ExtPosture::Unmentioned
    );
    // Naming the driver directly is flagged.
    assert_eq!(
        ext_posture("*.rbxl merge=rbxdom", "rbxl"),
        ExtPosture::Driver
    );
    assert_eq!(
        ext_posture("*.rbxl merge=custom", "rbxl"),
        ExtPosture::Other
    );
    // The last matching rule wins, as in Git.
    assert_eq!(
        ext_posture("*.rbxl merge=rbxdom\n*.rbxl binary", "rbxl"),
        ExtPosture::Safe
    );
    // Other extensions' rules do not leak.
    assert_eq!(
        ext_posture("*.rbxl binary", "rbxlx"),
        ExtPosture::Unmentioned
    );
}

#[test]
fn attributes_body_covers_every_extension() {
    let body = attributes_body();
    for ext in extensions() {
        assert!(body.contains(&format!("*.{ext} merge={DRIVER} diff={DRIVER}")));
    }
}

#[test]
fn gitattributes_body_is_binary() {
    let body = gitattributes_body();
    for ext in extensions() {
        assert!(body.contains(&format!("*.{ext} binary")));
    }
}

#[test]
fn upsert_is_idempotent_and_preserves_surroundings() {
    let first = upsert_block("*.txt text\n", "*.rbxl merge=rbxdom")
        .unwrap()
        .unwrap();
    assert!(first.starts_with("*.txt text\n"));
    assert!(first.contains("*.rbxl merge=rbxdom"));

    // Re-running with the same body is a no-op.
    assert_eq!(upsert_block(&first, "*.rbxl merge=rbxdom"), Ok(None));

    // A changed body replaces only the managed block.
    let second = upsert_block(&first, "*.rbxm merge=rbxdom").unwrap().unwrap();
    assert!(second.starts_with("*.txt text\n"));
    assert!(second.contains("*.rbxm merge=rbxdom"));
    assert!(!second.contains("*.rbxl merge=rbxdom"));
    assert_eq!(second.matches(begin_line()).count(), 1);

    // Removing the block restores the original file exactly.
    let third = remove_block(&second).unwrap().unwrap();
    assert_eq!(third, "*.txt text\n");
    assert_eq!(remove_block(&third), Ok(None));
}

#[test]
fn unbalanced_markers_error_instead_of_mangling() {
    let file = format!("{}\n# user deleted the END line\n", begin_line());
    assert!(upsert_block(&file, "*.rbxl merge=rbxdom").is_err());
    assert!(remove_block(&file).is_err());
}

#[test]
fn append_line_if_missing_dedupes() {
    let file = append_line_if_missing("", ".rbxmerge/").unwrap();
    assert_eq!(append_line_if_missing(&file, ".rbxmerge/"), None);
    assert_eq!(file.matches(".rbxmerge/").count(), 1);

    let file = remove_line_if_present(&file, ".rbxmerge/").unwrap();
    assert_eq!(remove_line_if_present(&file, ".rbxmerge/"), None);
    assert!(!file.contains(".rbxmerge/"));
}

#[test]
fn driver_paths_are_refused_for_a_reason() {
    assert_eq!(refuse_driver_path("rbx-merge"), None);
    assert_eq!(
        refuse_driver_path("").as_deref(),
        Some("--driver-path must not be empty")
    );
    assert!(refuse_driver_path("50%/rbx").unwrap().contains("contains '%'"));
}

#[test]
fn drivers_are_configured_under_their_names() {
    let config = driver_config("my rbx", true);
    let keys: Vec<&str> = config.iter().map(|(key, _)| key.as_str()).collect();
    assert_eq!(
        keys,
        [
            "merge.rbxdom.name",
            "merge.rbxdom.driver",
            "diff.rbxdom.textconv",
            "diff.rbxdom.cachetextconv"
        ]
    );
    assert_eq!(config[1].1, merge_driver("my rbx", true));
    assert_eq!(config[2].1, "'my rbx' textconv");
    assert_eq!(config[3].1, "true");
    assert_eq!(driver_program(Some(&config[1].1)), "my rbx");
    assert_eq!(driver_program(None), "rbx-merge");
}

#[test]
fn install_leaves_the_clone_alone_for_the_machine() {
    let options = |global: bool, stash: bool| InstallOptions {
        global,
        driver_path: "rbx-merge".to_owned(),
        stash,
        write_gitattributes: false,
    };
    let plan = install_plan(&options(false, true));
    assert_eq!(plan.attributes, AttributesPlace::Clone);
    assert_eq!(plan.exclude, ExcludeAction::Append);
    assert!(!plan.global_config && !plan.gitattributes);
    assert_eq!(install_plan(&options(false, false)).exclude, ExcludeAction::Remove);
    let plan = install_plan(&options(true, true));
    assert_eq!(plan.attributes, AttributesPlace::Machine);
    assert_eq!(plan.exclude, ExcludeAction::Leave);
    assert!(plan.global_config);
}

#[test]
fn blocks_come_off_again() {
    let before = "*.txt text\n";
    let with = upsert_block(before, "body").unwrap().unwrap();
    assert!(with.contains("\nbody\n"));
    assert_eq!(upsert_block(&with, "body"), Ok(None));
    assert_eq!(remove_block(&with).unwrap().unwrap(), before);
    assert_eq!(remove_block(before), Ok(None));
}

#[test]
fn lines_come_off_again() {
    let with = append_line_if_missing("a\nb\n", "c").unwrap();
    assert_eq!(with, "a\nb\nc\n");
    assert_eq!(append_line_if_missing(&with, "c"), None);
    assert_eq!(remove_line_if_present(&with, "c").unwrap(), "a\nb\n");
    assert_eq!(remove_line_if_present("a\n", "c"), None);
}

fn findings() -> Findings {
    Findings {
        version: Some("git version 2.43.0".to_owned()),
        git_dir: Some("/repo/.git".to_owned()),
        driver: Some(merge_driver("rbx-merge", true)),
        runnable: true,
        textconv: true,
        attributes: vec![Some("rbxdom".to_owned()); 4],
        committed: Some(gitattributes_body()),
    }
}

#[test]
fn install_then_doctor_reports_healthy() {
    let report = examine(&findings());
    let printed = report.lines.join("\n");
    assert!(!report.failed, "{printed}");
    assert!(printed.contains("semantic merge active for *.rbxmx"), "{printed}");
    assert!(printed.contains("marks Roblox files `binary`"), "{printed}");
    assert!(printed.contains("executable found"), "{printed}");
    assert_eq!(report.lines[0], "[ ok ] 2.43.0");
}

#[test]
fn doctor_flags_uninstalled_repo() {
    let report = examine(&Findings {
        driver: None,
        textconv: false,
        attributes: vec![Some("unspecified".to_owned()); 4],
        committed: Some(String::new()),
        ..findings()
    });
    let printed = report.lines.join("\n");
    assert!(report.failed, "{printed}");
    assert!(printed.contains("merge driver not configured"), "{printed}");
    assert!(printed.contains("would be line-merged"), "{printed}");
    assert!(printed.contains("no committed .gitattributes"), "{printed}");
}

#[test]
fn doctor_stops_without_git_or_repository() {
    let report = examine(&Findings { version: None, ..findings() });
    assert!(report.failed);
    assert_eq!(report.lines, ["[FAIL] git not found on PATH"]);
    let report = examine(&Findings { git_dir: None, ..findings() });
    assert!(report.failed);
    assert_eq!(report.lines.len(), 2);
    assert!(report.lines[1].starts_with("[FAIL] not inside a Git repository"));
}

#[test]
fn doctor_tells_safe_from_active() {
    let report = examine(&Findings {
        attributes: vec![
            Some("unset".to_owned()),
            Some("rbxdom".to_owned()),
            Some("other".to_owned()),
            None,
        ],
        ..findings()
    });
    let printed = report.lines.join("\n");
    assert!(report.failed);
    assert!(printed.contains("[warn] *.rbxl falls back to binary"), "{printed}");
    assert!(printed.contains("[ ok ] semantic merge active for *.rbxlx"), "{printed}");
    assert!(printed.contains("[FAIL] *.rbxm is assigned merge driver `other`"), "{printed}");
    assert!(printed.contains("[FAIL] *.rbxmx would be line-merged"), "{printed}");
}

#[test]
fn install_quotes_spaced_driver_path() {
    let path = "/home/me/spaced dir/rbx-merge";
    assert_eq!(refuse_driver_path(path), None, "install should accept a spaced driver path");

    // The stored command is shell-quoted so Git's sh parses it back whole.
    let config = driver_config(path, true);
    let driver = &config.iter().find(|(key, _)| key == "merge.rbxdom.driver").unwrap().1;
    assert!(driver.starts_with('\''), "got: {driver}");

    // Doctor un-quotes the executable and finds it runnable.
    assert_eq!(driver_program(Some(driver)), path);
    let report = examine(&Findings { driver: Some(driver.clone()), ..findings() });
    let printed = report.lines.join("\n");
    assert!(printed.contains("executable found"), "got:\n{printed}");
}

#[test]
fn uninstall_reverts_install() {
    let attrs = upsert_block("", &attributes_body()).unwrap().unwrap();
    assert!(attrs.contains("*.rbxmx merge=rbxdom diff=rbxdom"), "got:\n{attrs}");
    let exclude = append_line_if_missing("# local\n", ".rbxmerge/").unwrap();

    let attrs = remove_block(&attrs).unwrap().unwrap();
    assert!(!attrs.contains("merge=rbxdom"), "got:\n{attrs}");
    let exclude = remove_line_if_present(&exclude, ".rbxmerge/").unwrap();
    assert!(!exclude.lines().any(|line| line.trim() == ".rbxmerge/"), "got:\n{exclude}");
}

#[test]
fn no_stash_install_reverts_stash_pieces() {
    let options = |stash: bool| InstallOptions {
        global: false,
        driver_path: "rbx-merge".to_owned(),
        stash,
        write_gitattributes: false,
    };
    let read_driver = |stash: bool| {
        let config = driver_config("rbx-merge", stash);
        config.into_iter().find(|(key, _)| key == "merge.rbxdom.driver").unwrap().1
    };

    // The default install uses the stash driver and ignores .rbxmerge/.
    let driver = read_driver(true);
    assert!(driver.contains("--stash-dir .rbxmerge/%P"), "got: {driver}");
    assert_eq!(install_plan(&options(true)).exclude, ExcludeAction::Append);
    let exclude = append_line_if_missing("", ".rbxmerge/").unwrap();

    // --no-stash rewrites the plain driver and drops the stale ignore line.
    let driver = read_driver(false);
    assert!(!driver.contains("--stash-dir"), "got: {driver}");
    assert_eq!(install_plan(&options(false)).exclude, ExcludeAction::Remove);
    let exclude = remove_line_if_present(&exclude, ".rbxmerge/").unwrap();
    assert!(
        !exclude.lines().any(|line| line.trim() == ".rbxmerge/"),
        "--no-stash should remove the stale .rbxmerge/ ignore"
    );
}

#[test]
fn uninstall_takes_back_what_install_wrote() {
    for global in [false, true] {
        let there = install_plan(&InstallOptions {
            global,
            driver_path: "rbx-merge".to_string(),
            stash: true,
            write_gitattributes: false,
        });
        let back = uninstall_plan(global);
        assert_eq!(back.global_config, there.global_config);
        assert_eq!(back.attributes, there.attributes);
        assert_eq!(back.exclude == ExcludeAction::Remove, there.exclude == ExcludeAction::Append);
        assert_eq!((back.needs_clone, back.mention_default), (!global, !global));
    }
    for before in ["", "*.png binary\n", "*.png binary"] {
        let installed = upsert_block(before, &attributes_body()).unwrap().unwrap();
        assert!(installed.contains("merge=rbxdom"));
        let back = remove_block(&installed).unwrap().unwrap();
        assert_eq!(back.trim_end_matches('\n'), before.trim_end_matches('\n'));
    }
}

#[test]
fn committed_default_is_safe_for_every_extension() {
    let body = gitattributes_body();
    assert!(!body.contains(begin_line()) && !body.contains("# END") && !body.ends_with('\n'));
    for ext in extensions() {
        assert_eq!(ext_posture(&body, &ext), ExtPosture::Safe);
        assert!(body.lines().any(|line| line == format!("*.{ext} binary")));
    }
    assert_eq!(ext_posture(&body, "txt"), ExtPosture::Unmentioned);
}
