use ed25519_dalek::{Signature, VerifyingKey};

use ayame_core::calendar::{civil_from_days, date_text, local_date};
use ayame_core::release::{
    after_poll, artifact_name, build_flags, bumped, check_artifact, check_key, checksum_line, has_room, hex,
    host_triple, ident_timestamp, is_yes, parse_opts, pick_run, public_hex, read_seed,
    release_gate, release_preflight, release_run_id, set_workspace_version, signature_line,
    stamp_changelog, tag_of, target_directory_from_metadata, unhex, unreleased_section,
    workspace_version, GateStep, Opts, PollStep,
};
use ayame_core::steps::{release_step, ReleaseEvent, ReleaseStage};

const CHANGELOG: &str = "\
# Changelog

## Unreleased

- Did a thing (#1).
- Did another thing (#2).

## v0.9.0 - 2026-08-08

- Shipped earlier (#0).
";

#[test]
fn stamping_moves_unreleased_entries_under_the_new_version() {
    let out = stamp_changelog(CHANGELOG, "0.10.0", "2026-08-25").unwrap();
    assert!(out.contains("## v0.10.0 - 2026-08-25"), "{out}");
    assert!(
        !out.contains("## Unreleased"),
        "the heading must be consumed"
    );
    assert!(out.contains("- Did a thing (#1)."));
    assert!(out.contains("## v0.9.0 - 2026-08-08"));
}

#[test]
fn stamping_refuses_an_empty_unreleased_section() {
    let err = stamp_changelog(
        "# Changelog\n\n## Unreleased\n\n## v0.9.0 - 2026-08-08\n\n- Old (#0).\n",
        "0.10.0",
        "2026-08-25",
    )
    .unwrap_err();
    assert!(err.contains("no entries"), "{err}");
    let err = stamp_changelog("# Changelog\n", "0.10.0", "2026-08-25").unwrap_err();
    assert!(err.contains("no `## Unreleased` section"), "{err}");
}

#[test]
fn the_unreleased_section_stops_at_the_next_heading() {
    let (heading, body) = unreleased_section(CHANGELOG).unwrap();
    assert_eq!(heading, "## Unreleased");
    assert!(body.contains("- Did another thing (#2)."));
    assert!(
        !body.contains("Shipped earlier"),
        "the previous release leaked into the section: {body:?}"
    );
}

#[test]
fn ident_timestamps_carry_the_local_offset() {
    let epoch = 1_787_690_640;
    let (e, off) = ident_timestamp(&format!("A U <a@u> {epoch} +0900")).unwrap();
    assert_eq!((e, off), (epoch, 9 * 3600));
    assert_eq!(civil_from_days((e + off).div_euclid(86_400)), (2026, 8, 26));
    assert_eq!(local_date(e, off), Some((2026, 8, 26)));
    assert_eq!(civil_from_days(epoch.div_euclid(86_400)), (2026, 8, 25));

    let (_, west) = ident_timestamp(&format!("A U <a@u> {epoch} -0430")).unwrap();
    assert_eq!(west, -(4 * 3600 + 30 * 60));
}

#[test]
fn ident_timestamps_reject_malformed_lines() {
    assert_eq!(ident_timestamp("A U <a@u> 123 0900"), None, "no sign");
    assert_eq!(ident_timestamp("A U <a@u> 123 +09"), None, "short offset");
    assert_eq!(ident_timestamp("A U <a@u> nope +0900"), None, "bad epoch");
    assert_eq!(ident_timestamp("A U <a@u> 123 +09xx"), None, "non-digit");
}

#[test]
fn civil_dates_round_trip_known_days() {
    assert_eq!(civil_from_days(0), (1970, 1, 1));
    assert_eq!(civil_from_days(19_723), (2024, 1, 1));
    assert_eq!(civil_from_days(19_782), (2024, 2, 29));
    assert_eq!(civil_from_days(20_690), (2026, 8, 25));
}

#[test]
fn dates_before_the_epoch_and_their_texts() {
    assert_eq!(civil_from_days(-1), (1969, 12, 31));
    assert_eq!(civil_from_days(-719_468), (0, 3, 1));
    assert_eq!(date_text(2026, 8, 5), "2026-08-05");
    assert_eq!(local_date(i64::MAX, 1), None);
}

#[test]
fn signing_produces_a_signature_the_updater_accepts() {
    let message = b"abc123  ayame-linux\n";
    let seed = [7u8; 32];
    let parsed: [u8; 32] = read_seed(&format!(" {}\n", hex(&seed))).unwrap();
    assert_eq!(parsed, seed, "hex round-trip must be lossless");

    let line = signature_line(&parsed, message);
    let signature = line.trim_end();
    assert_eq!(
        signature.len(),
        128,
        "the updater parses 128 hex characters"
    );

    let public: [u8; 32] = unhex(&public_hex(&parsed)).unwrap().try_into().unwrap();
    let public = VerifyingKey::from_bytes(&public).unwrap();
    let bytes: [u8; 64] = unhex(signature).unwrap().try_into().unwrap();
    public
        .verify_strict(message, &Signature::from_bytes(&bytes))
        .expect("a freshly signed checksum must verify");
}

#[test]
fn a_signing_key_must_be_whole_and_the_expected_one() {
    assert!(read_seed("00ff").unwrap_err().contains("64 hex characters"));
    assert!(read_seed(&"zz".repeat(32)).is_err());
    let actual = public_hex(&[7u8; 32]);
    assert!(check_key("", &actual).is_ok());
    assert!(check_key(&format!(" {actual}\n"), &actual).is_ok());
    assert!(check_key("00", &actual)
        .unwrap_err()
        .contains("does not match AYAME_UPDATE_PUBKEY"));
}

#[test]
fn hex_refuses_odd_and_non_hex_input() {
    assert_eq!(unhex("00ff"), Some(vec![0x00, 0xff]));
    assert_eq!(unhex("abc"), None, "odd length");
    assert_eq!(unhex("zz"), None, "not hex");
    assert_eq!(hex(&[0x00, 0xff, 0x1a]), "00ff1a");
    assert_eq!(unhex("FfA0"), Some(vec![0xff, 0xa0]));
    assert_eq!(unhex("+f"), None, "a sign is no digit");
    assert_eq!(unhex("0+"), None, "a sign is no digit");
    assert_eq!(hex(&unhex("FfA0").unwrap()), "ffa0");
}

#[test]
fn a_checksum_line_has_the_digest_and_the_name() {
    assert_eq!(
        checksum_line("empty.bin", b""),
        "e3b0c44298fc1c149afbf4c8996fb92427ae41e4649b934ca495991b7852b855  empty.bin\n"
    );
}

#[test]
fn workspace_version_is_anchored_to_workspace_package() {
    let manifest = r#"[package]
name = "decoy"
version = "9.9.9"

[workspace]

[workspace.package]
version = "1.2.3" # release version

[dependencies]
decoy = { version = "1.2.3" }
"#;
    assert_eq!(workspace_version(manifest).unwrap(), "1.2.3");
    let updated = set_workspace_version(manifest, "2.0.0").unwrap().unwrap();
    assert_eq!(workspace_version(&updated).unwrap(), "2.0.0");
    assert!(updated.contains("version = \"9.9.9\""));
    assert!(updated.contains("decoy = { version = \"1.2.3\" }"));
    assert_eq!(set_workspace_version(&updated, "2.0.0").unwrap(), None);
}

#[test]
fn a_manifest_without_a_version_is_refused() {
    assert!(workspace_version("[package]\n").unwrap_err().contains("not found"));
    assert!(workspace_version("= =").unwrap_err().contains("parsing"));
    assert!(set_workspace_version("[package]\n", "1.0.0").is_err());
}

#[test]
fn cargo_metadata_is_parsed_as_json() {
    let metadata = r#"{"target_directory":"C:\\work\\target","packages":[]}"#;
    assert_eq!(
        target_directory_from_metadata(metadata).unwrap(),
        r"C:\work\target"
    );
    assert!(target_directory_from_metadata(r#"{"packages":[]}"#).is_err());
    assert!(target_directory_from_metadata("{").is_err());
}

#[test]
fn release_run_is_selected_by_exact_commit() {
    let json = r#"[
      {"databaseId": 11, "headSha": "other"},
      {"databaseId": 22, "headSha": "abc123"},
      {"databaseId": 33, "headSha": "abc1234"}
    ]"#;
    assert_eq!(release_run_id(json, "abc123").unwrap(), Some(22));
    assert_eq!(release_run_id(json, "missing").unwrap(), None);
    assert!(release_run_id("{}", "x").unwrap_err().contains("JSON array"));
    assert!(release_run_id("{", "x").unwrap_err().contains("parsing"));
    let runs = vec![
        (Some("abc".to_string()), None),
        (None, Some(1)),
        (Some("abc".to_string()), Some(2)),
    ];
    assert_eq!(pick_run(&runs, "abc"), Some(2));
}

#[test]
fn versions_are_bumped() {
    assert_eq!(bumped("1.2.3", "patch").unwrap(), "1.2.4");
    assert_eq!(bumped("1.2.3", "minor").unwrap(), "1.3.0");
    assert_eq!(bumped("1.2.3", "major").unwrap(), "2.0.0");
    assert_eq!(bumped("1.2.3", "4.0.0-rc").unwrap(), "4.0.0-rc");
    assert!(bumped("1.2", "patch").is_err());
    assert!(bumped("1.2.x", "patch").is_err());
    assert!(bumped("1.2.3", "huge").is_err());
}

#[test]
fn options_are_read() {
    let args = |v: &[&str]| v.iter().map(|s| s.to_string()).collect::<Vec<_>>();
    let o = parse_opts(&args(&["--bump", "minor", "--yes", "--dry-run"])).unwrap();
    assert_eq!(o.bump.as_deref(), Some("minor"));
    assert!(o.yes && o.dry_run && !o.skip_gate);
    assert!(parse_opts(&args(&["--skip-gate"])).unwrap().skip_gate);
    assert!(parse_opts(&args(&["--bump"])).unwrap_err().contains("--bump needs"));
    assert!(parse_opts(&args(&["-x"])).unwrap_err().contains("unknown option: -x"));
}

#[test]
fn a_release_starts_only_from_a_clean_main() {
    assert!(release_preflight("main", false, true, Some("0")).is_ok());
    assert!(release_preflight("main", false, true, None).is_ok());
    assert!(release_preflight("topic", true, true, None).is_ok());
    assert!(release_preflight("topic", false, true, None)
        .unwrap_err()
        .contains("not on main (on 'topic')"));
    assert!(release_preflight("main", false, false, None)
        .unwrap_err()
        .contains("not clean"));
    assert_eq!(
        release_preflight("main", false, true, Some("3")).unwrap_err(),
        "HEAD is 3 commit(s) behind origin/main — pull first"
    );
}

#[test]
fn steps_that_cannot_run_are_named() {
    let runs = |v: &[GateStep]| v.iter().filter(|s| matches!(s, GateStep::Run(_))).count();
    let all = release_gate(true, true, true);
    assert_eq!(runs(&all), 13);
    let few = release_gate(false, true, false);
    assert_eq!(runs(&few), 7);
    assert!(few
        .iter()
        .any(|s| matches!(s, GateStep::Say(t) if t.contains("crash isolation SKIPPED"))));
    assert!(few
        .iter()
        .any(|s| matches!(s, GateStep::Say(t) if t.contains("frontend SKIPPED"))));
    assert_eq!(runs(&release_gate(false, false, true)), 7);
}

#[test]
fn artifacts_are_named_and_checked() {
    assert_eq!(tag_of("1.0.0"), "v1.0.0");
    assert_eq!(
        artifact_name("1.0.0", "x86_64-pc-windows-msvc"),
        "ayame-v1.0.0-x86_64-pc-windows-msvc.exe"
    );
    assert_eq!(
        artifact_name("1.0.0", "aarch64-apple-darwin"),
        "ayame-v1.0.0-aarch64-apple-darwin"
    );
    assert!(check_artifact("ayame 1.0.0", "1.0.0").is_ok());
    assert_eq!(
        check_artifact("ayame 0.9.0", "1.0.0").unwrap_err(),
        "artifact reports 'ayame 0.9.0', expected 'ayame 1.0.0'"
    );
    assert!(is_yes("y\n") && is_yes(" Y ") && !is_yes("yes") && !is_yes(""));
}

#[test]
fn builds_fit_their_host() {
    let said = "rustc 1.0.0\r\nbinary: rustc\r\nhost: x86_64-pc-windows-msvc\r\nrelease: 1.0.0";
    assert_eq!(host_triple(said).unwrap(), "x86_64-pc-windows-msvc");
    assert!(host_triple("rustc 1.0.0").is_err());
    assert_eq!(
        build_flags("x86_64-pc-windows-msvc", ""),
        Some("-C target-feature=+crt-static".to_string())
    );
    assert_eq!(
        build_flags("x86_64-pc-windows-msvc", "-g"),
        Some("-g -C target-feature=+crt-static".to_string())
    );
    assert_eq!(build_flags("x86_64-pc-windows-msvc", "-C target-feature=+crt-static"), None);
    assert_eq!(build_flags("x86_64-unknown-linux-gnu", ""), None);
}

#[test]
fn a_run_is_looked_for_a_while() {
    assert!(matches!(after_poll(Some(7), "abc", 0, 3), PollStep::Found(s) if s == "7"));
    assert!(matches!(after_poll(None, "abc", 1, 3), PollStep::Pause));
    assert!(matches!(after_poll(None, "abc", 2, 3), PollStep::GiveUp(e)
        if e == "Release workflow for commit abc did not appear after 3 polls"));
}

#[test]
fn versions_that_are_full_are_not_raised() {
    let full = format!("1.2.{}", u64::MAX);
    assert!(!has_room(&full, "patch"));
    assert!(has_room(&full, "minor"));
    assert_eq!(bumped(&full, "minor").unwrap(), "1.3.0");
    assert!(!has_room(&format!("{}.0.0", u64::MAX), "major"));
    assert!(has_room("no version", "patch"));
}

fn release_opts(yes: bool, dry_run: bool, skip_gate: bool) -> Opts {
    Opts {
        bump: None,
        yes,
        dry_run,
        skip_gate,
    }
}

fn stages(opts: &Opts) -> Vec<ReleaseStage> {
    let mut stage = ReleaseStage::Preflight;
    let mut seen = vec![stage];
    while stage != ReleaseStage::Done {
        let event = match stage {
            ReleaseStage::Tag => ReleaseEvent::Tagged {
                tag: "v1.0.0".to_string(),
                found: false,
            },
            ReleaseStage::Report => ReleaseEvent::Reported {
                got: "ayame 1.0.0".to_string(),
                version: "1.0.0".to_string(),
            },
            ReleaseStage::Ask => ReleaseEvent::Answered {
                answer: "y\n".to_string(),
            },
            _ => ReleaseEvent::Passed,
        };
        stage = release_step(stage, opts, &event).unwrap();
        seen.push(stage);
    }
    seen
}

#[test]
fn a_release_goes_step_by_step() {
    let all = [
        ReleaseStage::Preflight,
        ReleaseStage::Version,
        ReleaseStage::Tag,
        ReleaseStage::Gate,
        ReleaseStage::Artifact,
        ReleaseStage::Report,
        ReleaseStage::Smoke,
        ReleaseStage::Summary,
        ReleaseStage::Ask,
        ReleaseStage::Publish,
        ReleaseStage::Remind,
        ReleaseStage::Done,
    ];
    assert_eq!(stages(&release_opts(false, false, false)), all);
    let dry = stages(&release_opts(true, true, false));
    assert_eq!(dry, [&all[..8], &all[11..]].concat());
    let short = stages(&release_opts(true, false, true));
    assert!(!short.contains(&ReleaseStage::Gate) && !short.contains(&ReleaseStage::Ask));
    assert!(short.contains(&ReleaseStage::Publish));
}

#[test]
fn a_release_stops_where_it_must() {
    let opts = release_opts(false, false, false);
    let taken = ReleaseEvent::Tagged {
        tag: "v1.0.0".to_string(),
        found: true,
    };
    assert_eq!(
        release_step(ReleaseStage::Tag, &opts, &taken).unwrap_err(),
        "tag v1.0.0 already exists — bump the version first (--bump patch)"
    );
    let old = ReleaseEvent::Reported {
        got: "ayame 0.9.0".to_string(),
        version: "1.0.0".to_string(),
    };
    assert!(release_step(ReleaseStage::Report, &opts, &old).is_err());
    let no = ReleaseEvent::Answered {
        answer: "n\n".to_string(),
    };
    assert_eq!(release_step(ReleaseStage::Ask, &opts, &no).unwrap_err(), "aborted");
    // What belongs to another stage does not move on.
    assert_eq!(
        release_step(ReleaseStage::Ask, &opts, &ReleaseEvent::Passed),
        Ok(ReleaseStage::Ask)
    );
}
