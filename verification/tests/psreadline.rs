use bt_preview::psreadline::{documents_for_module_root, module_directory};
use bt_preview::psreadline::Replacement;
use bt_preview::psreadline::{
    installed_build, installed_copy_step, installed_on_probe, AssemblyRead, CopyFact, CopyQuestion, CopyStep,
};
use bt_preview::psreadline::{
    after_install, after_remove, family_prefix, press, probe_override, Outcome, Refusal, Removed, Verb, Wrote,
};
use bt_preview::psreadline::{
    install_available, invite_decision, parse_probe_output, patched_version, remove_available, row_state,
    state_after_decline, upgrade_decision, Build, ExecutionPolicy, InstalledBuild, InstalledCopy, InviteDecision,
    Probe, PsReadLineInvite, RowState, Upgrade, Version, PATCHED_BUILD, PATCHED_VERSION,
};

fn probe_at(version: &str, policy: ExecutionPolicy) -> Probe {
    Probe { version: Version::parse(version), policy }
}

#[test]
fn versions_compare_as_numbers_and_parse_every_shape_windows_prints() {
    assert!(Version::parse("2.10.0").unwrap() > patched_version());
    assert!(Version::parse("2.0.0").unwrap() < patched_version());
    assert_eq!(Version::parse("2.4.6.0").unwrap(), patched_version());
    assert_eq!(Version::parse("2.4").unwrap(), Version { major: 2, minor: 4, build: 0 });
    assert_eq!(Version::parse(""), None);
    assert_eq!(Version::parse("Restricted"), None);
    assert_eq!(Version::parse("2.4.6.0.1"), None);
    assert_eq!(patched_version().text(), PATCHED_VERSION);
}

#[test]
fn a_version_may_carry_white_space_and_a_plus_but_not_a_sign() {
    assert_eq!(Version::parse(" 2 . 4 . 6 \r"), Some(Version { major: 2, minor: 4, build: 6 }));
    assert_eq!(Version::parse("+2.4"), Some(Version { major: 2, minor: 4, build: 0 }));
    assert_eq!(Version::parse("-2.4"), None);
    assert_eq!(Version::parse("4294967296.0"), None);
    assert_eq!(Version::parse("4294967295.0").map(|v| v.major), Some(u32::MAX));
}

#[test]
fn the_probe_tells_the_version_line_from_the_policy_line_by_shape() {
    let both = parse_probe_output("2.0.0\r\nAllSigned\r\n");
    assert_eq!(both.version, Version::parse("2.0.0"));
    assert_eq!(both.policy, ExecutionPolicy::AllSigned);
    let policy_only = parse_probe_output("\r\nAllSigned\r\n");
    assert_eq!(policy_only.version, None);
    assert_eq!(policy_only.policy, ExecutionPolicy::AllSigned);
    let nothing = parse_probe_output("");
    assert_eq!(nothing, Probe::default());
    assert_eq!(nothing.policy, ExecutionPolicy::Unknown);
}

#[test]
fn only_the_policies_that_refuse_an_unsigned_module_disable_the_install() {
    for policy in [ExecutionPolicy::AllSigned, ExecutionPolicy::Restricted] {
        assert!(policy.refuses_unsigned_modules(), "{policy:?}");
    }
    for policy in [
        ExecutionPolicy::RemoteSigned,
        ExecutionPolicy::Unrestricted,
        ExecutionPolicy::Bypass,
        ExecutionPolicy::Undefined,
        ExecutionPolicy::Unknown,
    ] {
        assert!(!policy.refuses_unsigned_modules(), "{policy:?}");
    }
    assert_eq!(ExecutionPolicy::parse("AllSigned"), ExecutionPolicy::AllSigned);
    assert_eq!(ExecutionPolicy::parse("nonsense"), ExecutionPolicy::Unknown);
}

#[test]
fn a_policy_is_named_by_its_own_word() {
    for policy in [
        ExecutionPolicy::Restricted,
        ExecutionPolicy::AllSigned,
        ExecutionPolicy::RemoteSigned,
        ExecutionPolicy::Unrestricted,
        ExecutionPolicy::Bypass,
        ExecutionPolicy::Undefined,
    ] {
        assert_eq!(ExecutionPolicy::parse(policy.name()), policy);
    }
    assert_eq!(ExecutionPolicy::Unknown.name(), "Unknown");
    assert_eq!(ExecutionPolicy::parse("  Bypass \t"), ExecutionPolicy::Bypass);
}

#[test]
fn the_invitation_is_owed_once_and_once_more_only_after_a_font_size_change() {
    let old = Some(probe_at("2.0.0", ExecutionPolicy::RemoteSigned));
    let current = Some(probe_at("2.4.6", ExecutionPolicy::RemoteSigned));
    let newer = Some(probe_at("2.10.0", ExecutionPolicy::RemoteSigned));
    assert_eq!(invite_decision(old, PsReadLineInvite::NotAsked, false), InviteDecision::Show);
    assert_eq!(
        invite_decision(old, PsReadLineInvite::Declined, false),
        InviteDecision::Stay,
        "a user who said no is owed silence on the next launch"
    );
    assert_eq!(
        invite_decision(old, PsReadLineInvite::Declined, true),
        InviteDecision::Show,
        "and exactly one more showing, where the symptom is on screen"
    );
    for state in [PsReadLineInvite::Installed, PsReadLineInvite::Dismissed] {
        for after in [false, true] {
            assert_eq!(invite_decision(old, state, after), InviteDecision::Stay, "{state:?} after={after}");
        }
    }
    for probe in [current, newer] {
        for state in [PsReadLineInvite::NotAsked, PsReadLineInvite::Declined] {
            assert_eq!(
                invite_decision(probe, state, true),
                InviteDecision::Stay,
                "a machine that already anchors itself is never asked"
            );
        }
    }
    for state in [PsReadLineInvite::NotAsked, PsReadLineInvite::Declined] {
        assert_eq!(
            invite_decision(None, state, true),
            InviteDecision::Stay,
            "and neither is one that has not been read yet"
        );
    }
}

#[test]
fn a_refusal_costs_one_strike_and_the_second_ends_the_invitation() {
    assert_eq!(state_after_decline(PsReadLineInvite::NotAsked), PsReadLineInvite::Declined);
    assert_eq!(state_after_decline(PsReadLineInvite::Declined), PsReadLineInvite::Dismissed);
    assert_eq!(state_after_decline(PsReadLineInvite::Installed), PsReadLineInvite::Installed);
    assert_eq!(state_after_decline(PsReadLineInvite::Dismissed), PsReadLineInvite::Dismissed);
}

#[test]
fn the_row_tells_an_install_from_a_newer_module_from_one_that_vanished() {
    let old = Some(probe_at("2.0.0", ExecutionPolicy::RemoteSigned));
    let current = Some(probe_at("2.4.6", ExecutionPolicy::RemoteSigned));
    let nothing = InstalledCopy::Vacant;
    assert_eq!(row_state(None, PsReadLineInvite::NotAsked, nothing), RowState::Probing);
    assert_eq!(row_state(old, PsReadLineInvite::NotAsked, nothing), RowState::Outdated);
    assert_eq!(row_state(current, PsReadLineInvite::NotAsked, nothing), RowState::AlreadyCurrent);
    assert_eq!(row_state(old, PsReadLineInvite::Installed, InstalledCopy::ThisBuild), RowState::InstalledByFolio);
    assert_eq!(
        row_state(old, PsReadLineInvite::Installed, nothing),
        RowState::RemovedElsewhere,
        "the file says Folio wrote it and the directory is gone"
    );
    for probe in [old, current, None] {
        for invite in [PsReadLineInvite::NotAsked, PsReadLineInvite::Declined, PsReadLineInvite::Installed] {
            assert_eq!(
                row_state(probe, invite, InstalledCopy::OlderBuild),
                RowState::UpdateAvailable,
                "what is on disk decides this one, not the probe and not the file: {probe:?} / {invite:?}"
            );
        }
    }
    assert_eq!(row_state(old, PsReadLineInvite::Installed, InstalledCopy::Foreign), RowState::NotOurs);
}

#[test]
fn the_picker_offers_only_the_action_it_can_actually_perform() {
    let signed = Some(probe_at("2.0.0", ExecutionPolicy::AllSigned));
    let open = Some(probe_at("2.0.0", ExecutionPolicy::RemoteSigned));
    assert!(install_available(open, RowState::Outdated));
    assert!(!install_available(signed, RowState::Outdated));
    assert!(!install_available(open, RowState::AlreadyCurrent));
    assert!(!install_available(None, RowState::Probing));
    assert!(remove_available(RowState::InstalledByFolio));
    assert!(remove_available(RowState::UpdateAvailable));
    for state in [RowState::Probing, RowState::Outdated, RowState::AlreadyCurrent, RowState::RemovedElsewhere] {
        assert!(!remove_available(state), "{state:?}");
    }
}

#[test]
fn the_probe_override_reads_a_version_and_an_optional_policy() {
    let parse = |raw: &str| probe_override(raw);
    assert_eq!(
        parse("2.0.0"),
        Probe { version: Version::parse("2.0.0"), policy: ExecutionPolicy::RemoteSigned }
    );
    assert_eq!(
        parse("2.0.0,AllSigned"),
        Probe { version: Version::parse("2.0.0"), policy: ExecutionPolicy::AllSigned }
    );
}

#[test]
fn builds_are_ordered_by_number_within_one_version() {
    let bundled = Build::bundled();
    assert_eq!(bundled.text(), PATCHED_BUILD);
    let first = Build::parse("2.4.6-bt.1").expect("a numbered build");
    let tenth = Build::parse("2.4.6-bt.10").expect("a numbered build");
    let named = Build::parse("2.4.6-bt.anchorfix").expect("a named build");
    assert!(first.predates(&bundled));
    assert!(!tenth.predates(&bundled));
    assert!(bundled.predates(&tenth));
    assert!(named.predates(&bundled));
    assert!(!named.predates(&Build::parse("2.4.6-bt.other").unwrap()));
    assert!(!Build::parse("2.4.5-bt.1").unwrap().predates(&bundled));
    assert_eq!(Build::parse("2.4.6"), None);
    assert_eq!(Build::parse("2.4.6-bt."), None);
    assert_eq!(named.text(), "2.4.6-bt.anchorfix");
}

#[test]
fn only_an_older_recorded_folio_build_is_replaced() {
    let bundled = Build::bundled();
    let older = InstalledBuild { build: Build::parse("2.4.6-bt.1"), recorded: true };
    let unrecorded = InstalledBuild { build: Build::parse("2.4.6-bt.1"), recorded: false };
    let stranger = InstalledBuild { build: None, recorded: true };
    assert_eq!(upgrade_decision(None, &bundled), Upgrade::Invite);
    assert_eq!(upgrade_decision(Some(&older), &bundled), Upgrade::Replace);
    assert_eq!(upgrade_decision(Some(&unrecorded), &bundled), Upgrade::Keep);
    assert_eq!(upgrade_decision(Some(&stranger), &bundled), Upgrade::Keep);
}

const MODULE: &str = "C:\\Users\\r\\Documents\\WindowsPowerShell\\Modules\\PSReadLine\\2.4.6";

#[test]
fn the_greyed_item_and_the_refusal_agree_on_every_state() {
    let states = [
        RowState::Probing,
        RowState::Outdated,
        RowState::InstalledByFolio,
        RowState::UpdateAvailable,
        RowState::AlreadyCurrent,
        RowState::RemovedElsewhere,
        RowState::NotOurs,
    ];
    for policy in [
        ExecutionPolicy::Restricted,
        ExecutionPolicy::AllSigned,
        ExecutionPolicy::RemoteSigned,
        ExecutionPolicy::Bypass,
    ] {
        for state in states {
            let probe = (state != RowState::Probing).then(|| probe_at("2.0.0", policy));
            let pressed = press(true, Some(MODULE.to_string()), state, probe);
            let refused = match pressed {
                Ok(Verb::Install) => {
                    let outcome = after_install(MODULE.to_string(), Ok(Wrote::Module(MODULE.to_string())));
                    matches!(outcome, Outcome::Refused(_))
                }
                Ok(Verb::Remove) => panic!("an install press asked for a removal"),
                Err(_) => true,
            };
            assert_eq!(
                install_available(probe, state),
                !refused,
                "{state:?} under {policy:?}"
            );
        }
    }
}

#[test]
fn a_documents_folder_windows_will_not_name_still_says_something() {
    let pressed = press(
        true,
        None,
        RowState::Outdated,
        Some(probe_at("2.0.0", ExecutionPolicy::RemoteSigned)),
    );
    assert_eq!(pressed, Err(Refusal::NoDocuments));
    let Err(refusal) = pressed else { unreachable!() };
    assert_eq!(refusal.tag(), "no-documents");
}

#[test]
fn what_is_on_the_machine_is_asked_before_the_policy() {
    let probe = Some(probe_at("2.0.0", ExecutionPolicy::Restricted));
    assert_eq!(
        press(true, Some(MODULE.to_string()), RowState::InstalledByFolio, probe),
        Err(Refusal::AlreadyThere { path: MODULE.to_string() })
    );
    assert_eq!(
        press(true, Some(MODULE.to_string()), RowState::NotOurs, probe),
        Err(Refusal::Occupied { path: MODULE.to_string() })
    );
    assert_eq!(
        press(true, Some(MODULE.to_string()), RowState::Outdated, probe),
        Err(Refusal::Policy { policy: ExecutionPolicy::Restricted, path: MODULE.to_string() })
    );
    let current = Some(probe_at("2.5.0", ExecutionPolicy::Bypass));
    assert_eq!(
        press(true, Some(MODULE.to_string()), RowState::AlreadyCurrent, current),
        Err(Refusal::AlreadyCurrent {
            found: Version::parse("2.5.0"),
            path: MODULE.to_string()
        })
    );
    assert_eq!(
        press(true, Some(MODULE.to_string()), RowState::Outdated, None),
        Err(Refusal::StillReading)
    );
}

#[test]
fn a_removal_press_reports_what_the_removal_did() {
    assert_eq!(
        press(false, Some(MODULE.to_string()), RowState::NotOurs, None),
        Ok(Verb::Remove)
    );
    assert_eq!(
        after_remove(MODULE.to_string(), Ok(Removed::Took { left: vec![] })),
        Outcome::Removed(MODULE.to_string())
    );
    assert_eq!(
        after_remove(MODULE.to_string(), Ok(Removed::Nothing)),
        Outcome::Refused(Refusal::NotOurs { path: MODULE.to_string() })
    );
    assert_eq!(
        after_remove(MODULE.to_string(), Ok(Removed::NotOurs)),
        Outcome::Refused(Refusal::NotOurs { path: MODULE.to_string() })
    );
    let failed = after_remove(MODULE.to_string(), Err("access denied".to_string()));
    assert_eq!(
        failed,
        Outcome::Refused(Refusal::Remove {
            path: MODULE.to_string(),
            message: "access denied".to_string()
        })
    );
}

#[test]
fn an_install_press_reports_what_the_write_did() {
    assert_eq!(
        after_install(MODULE.to_string(), Ok(Wrote::NotOurs)),
        Outcome::Refused(Refusal::Occupied { path: MODULE.to_string() })
    );
    let failed = after_install(MODULE.to_string(), Err("disk full".to_string()));
    let Outcome::Refused(refusal) = failed else { panic!("a failed write is a refusal") };
    assert_eq!(refusal.tag(), "write-failed");
}

#[test]
fn every_refusal_has_its_own_tag() {
    let path = || MODULE.to_string();
    let refusals = [
        Refusal::StillReading,
        Refusal::Policy { policy: ExecutionPolicy::AllSigned, path: path() },
        Refusal::NoDocuments,
        Refusal::AlreadyCurrent { found: None, path: path() },
        Refusal::AlreadyThere { path: path() },
        Refusal::Occupied { path: path() },
        Refusal::Write { path: path(), message: "m".to_string() },
        Refusal::NotOurs { path: path() },
        Refusal::Remove { path: path(), message: "m".to_string() },
    ];
    let tags: Vec<&str> = refusals.iter().map(|r| r.tag()).collect();
    for (i, a) in tags.iter().enumerate() {
        for b in &tags[i + 1..] {
            assert_ne!(a, b);
        }
    }
    assert_eq!(tags[0], "still-reading");
    assert_eq!(tags[8], "remove-failed");
}

#[test]
fn the_family_prefix_is_the_patched_version_and_a_build_mark() {
    assert_eq!(family_prefix(), "2.4.6-bt.");
    assert!(PATCHED_BUILD.starts_with(&family_prefix()));
}

#[test]
fn the_override_reads_only_the_first_two_parts() {
    assert_eq!(
        probe_override("2.0.0, AllSigned ,Bypass"),
        Probe { version: Version::parse("2.0.0"), policy: ExecutionPolicy::AllSigned }
    );
    assert_eq!(
        probe_override(",Restricted"),
        Probe { version: None, policy: ExecutionPolicy::Restricted }
    );
    assert_eq!(
        probe_override("2.4.6,"),
        Probe { version: Version::parse("2.4.6"), policy: ExecutionPolicy::Unknown }
    );
}

/// Walk the owner question with a table of answers, as the disk would give them.
fn owner(directory: bool, same: bool, stamp: Option<&str>, assembly: AssemblyRead, names: bool) -> InstalledCopy {
    let mut fact = CopyFact::Directory(directory);
    loop {
        match installed_copy_step(fact) {
            CopyStep::Known(copy) => return copy,
            CopyStep::Ask(CopyQuestion::ByteForByte) => fact = CopyFact::ByteForByte(same),
            CopyStep::Ask(CopyQuestion::Stamp) => fact = CopyFact::Stamp(stamp.map(str::to_owned)),
            CopyStep::Ask(CopyQuestion::Assembly) => fact = CopyFact::Assembly(assembly),
            CopyStep::Ask(CopyQuestion::OnlyOurNames) => fact = CopyFact::OnlyOurNames(names),
        }
    }
}

#[test]
fn the_owner_of_the_module_directory_is_read_strongest_claim_first() {
    assert_eq!(owner(false, true, None, AssemblyRead::Bundled, true), InstalledCopy::Vacant);
    assert_eq!(owner(true, true, Some("2.0.0"), AssemblyRead::Other, false), InstalledCopy::ThisBuild);
    assert_eq!(owner(true, false, Some("2.4.6-bt.1"), AssemblyRead::Other, false), InstalledCopy::OlderBuild);
    assert_eq!(owner(true, false, Some("2.4.6-bt.anchorfix"), AssemblyRead::Other, false), InstalledCopy::OlderBuild);
    // This very build's stamp on bytes that are not this build's: edited since.
    assert_eq!(owner(true, false, Some(PATCHED_BUILD), AssemblyRead::Other, false), InstalledCopy::Vacant);
    // A stock module of the same version carries no family stamp.
    assert_eq!(owner(true, false, Some("2.4.6"), AssemblyRead::Other, true), InstalledCopy::Foreign);
    assert_eq!(owner(true, false, None, AssemblyRead::Bundled, false), InstalledCopy::Vacant);
    assert_eq!(owner(true, false, None, AssemblyRead::Unreadable, true), InstalledCopy::Foreign);
    assert_eq!(owner(true, false, None, AssemblyRead::Missing, true), InstalledCopy::Vacant);
    assert_eq!(owner(true, false, None, AssemblyRead::Missing, false), InstalledCopy::Foreign);
}

#[test]
fn only_a_family_stamp_names_an_installed_build() {
    assert_eq!(installed_build(Some("2.4.6-bt.2".to_owned())), Some("2.4.6-bt.2".to_owned()));
    assert_eq!(installed_build(Some("2.4.6-bt.".to_owned())), Some("2.4.6-bt.".to_owned()));
    assert_eq!(installed_build(Some("2.4.6".to_owned())), None);
    assert_eq!(installed_build(Some("2.4.5-bt.9".to_owned())), None);
    assert_eq!(installed_build(None), None);
}

#[test]
fn the_installed_copy_is_read_once_a_probe_has_answered_and_then_kept() {
    let reads = std::cell::Cell::new(0);
    let read = || {
        reads.set(reads.get() + 1);
        InstalledCopy::OlderBuild
    };
    let mut cache = None;
    assert_eq!(installed_on_probe(&mut cache, None, read), InstalledCopy::Vacant);
    assert_eq!(reads.get(), 0, "no probe, no read");
    assert_eq!(cache, None, "and the slot stays unread");
    let probe = Some(probe_at("2.0.0", ExecutionPolicy::RemoteSigned));
    assert_eq!(installed_on_probe(&mut cache, probe, read), InstalledCopy::OlderBuild);
    assert_eq!(installed_on_probe(&mut cache, probe, read), InstalledCopy::OlderBuild);
    assert_eq!(reads.get(), 1, "read once");
    assert_eq!(cache, Some(InstalledCopy::OlderBuild));
}

fn on_disk(stamp: &str, recorded: bool) -> InstalledBuild {
    InstalledBuild { build: Build::parse(stamp), recorded }
}

#[test]
fn folios_own_older_psreadline_build_is_replaced_by_the_bundled_one_without_an_invitation() {
    let bundled = Build::parse("2.4.6-bt.2").unwrap();
    for older in ["2.4.6-bt.1", "2.4.6-bt.anchorfix"] {
        assert_eq!(
            upgrade_decision(Some(&on_disk(older, true)), &bundled),
            Upgrade::Replace,
            "{older} recorded by Folio, bundled 2.4.6-bt.2"
        );
    }
    assert_eq!(
        upgrade_decision(None, &bundled),
        Upgrade::Invite,
        "and a machine with nothing of Folio's on it is still only invited"
    );
}

#[test]
fn a_copy_folio_did_not_install_is_never_replaced() {
    let bundled = Build::bundled();
    assert_eq!(
        upgrade_decision(Some(&on_disk("2.4.6-bt.1", false)), &bundled),
        Upgrade::Keep,
        "a Folio-stamped 2.4.6 with no record of Folio installing it"
    );
    for stamp in ["2.4.6", "2.5.0", "2.5.0-bt.1"] {
        for recorded in [false, true] {
            assert_eq!(
                upgrade_decision(Some(&on_disk(stamp, recorded)), &bundled),
                Upgrade::Keep,
                "{stamp}, recorded={recorded}"
            );
        }
    }
}

#[test]
fn the_same_build_is_kept_and_a_newer_own_build_is_kept() {
    let bundled = Build::parse("2.4.6-bt.2").unwrap();
    for stamp in ["2.4.6-bt.2", "2.4.6-bt.3", "2.4.6-bt.10"] {
        assert_eq!(
            upgrade_decision(Some(&on_disk(stamp, true)), &bundled),
            Upgrade::Keep,
            "{stamp} against bundled 2.4.6-bt.2"
        );
    }
    let build = |stamp| Build::parse(stamp).unwrap();
    assert!(build("2.4.6-bt.9").predates(&build("2.4.6-bt.10")));
    assert!(!build("2.4.6-bt.10").predates(&build("2.4.6-bt.9")));
    assert!(build("2.4.6-bt.anchorfix").predates(&build("2.4.6-bt.1")));
    assert!(!build("2.4.6-bt.1").predates(&build("2.4.6-bt.anchorfix")));
    assert!(!build("2.4.6-bt.anchorfix").predates(&build("2.4.6-bt.other")));
    assert!(!build("2.4.5-bt.1").predates(&build("2.4.6-bt.2")));
    assert_eq!(build("2.4.6-bt.anchorfix").text(), "2.4.6-bt.anchorfix");
    assert_eq!(Build::parse("2.4.6-bt."), None);
    assert_eq!(Build::bundled().text(), PATCHED_BUILD);
    assert!(build("2.4.6-bt.anchorfix").predates(&Build::bundled()));
}

#[test]
fn a_replacement_says_what_it_did_in_one_line() {
    let root = "C:\\Users\\r\\Documents\\WindowsPowerShell\\Modules\\PSReadLine\\2.4.6";
    let done = Replacement { from: "2.4.6-bt.1".to_owned(), wrote: Ok(Wrote::Module(root.to_owned())) };
    assert_eq!(done.log_line(), format!("BT_PSREADLINE upgraded 2.4.6-bt.1 to 2.4.6-bt.2 in {root}"));
    let refused = Replacement { from: "2.4.6-bt.1".to_owned(), wrote: Ok(Wrote::NotOurs) };
    assert_eq!(refused.log_line(), "BT_PSREADLINE upgrade from 2.4.6-bt.1 refused why=occupied");
    let failed = Replacement { from: "2.4.6-bt.1".to_owned(), wrote: Err("access is denied".to_owned()) };
    assert!(failed.log_line().contains("kept until the next launch"), "{}", failed.log_line());
    assert_eq!(
        failed.log_line(),
        "BT_PSREADLINE upgrade from 2.4.6-bt.1 to 2.4.6-bt.2 failed, kept until the next launch: access is denied"
    );
}

#[test]
fn a_printed_version_reads_back_as_itself() {
    for v in [
        Version { major: 0, minor: 0, build: 0 },
        Version { major: 2, minor: 4, build: 6 },
        Version { major: 10, minor: 203, build: 4_000 },
        Version { major: u32::MAX, minor: 7, build: u32::MAX },
    ] {
        assert_eq!(Version::parse(&v.text()), Some(v), "{v:?}");
    }
}

fn parts(names: &[&str]) -> Vec<String> {
    names.iter().map(|name| name.to_string()).collect()
}

#[test]
fn a_module_root_gives_back_the_documents_folder_it_was_written_under() {
    let tail = parts(&["WindowsPowerShell", "Modules", "PSReadLine", "2.4.6"]);
    let documents = parts(&["C:", "\\", "Users", "me", "Documents"]);
    let root = module_directory(&documents, &tail);
    assert_eq!(
        root,
        parts(&["C:", "\\", "Users", "me", "Documents", "WindowsPowerShell", "Modules", "PSReadLine", "2.4.6"])
    );
    assert_eq!(documents_for_module_root(&root, &tail), Some(documents));
    assert_eq!(documents_for_module_root(&tail, &tail), Some(Vec::new()), "a relative root under nothing");
    let other = parts(&["C:", "\\", "Users", "me", "Documents", "WindowsPowerShell", "Modules", "PSReadLine", "2.3.0"]);
    assert_eq!(documents_for_module_root(&other, &tail), None, "another version's directory is not ours");
    assert_eq!(documents_for_module_root(&parts(&["PSReadLine"]), &tail), None);
}
