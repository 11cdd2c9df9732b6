use tag_watcher::codec::{decode_state, encode_state, LoadError};
use tag_watcher::reconcile::{begin_check, finish_check, reconcile, ReconcileOutcome};
use tag_watcher::repo_id::split_repo_id;
use tag_watcher::resolve::{resolve, ApiOutcome, Provenance, ResolveError};
use tag_watcher::state::StateRecord;
use tag_watcher::store::{load_state, StoredFiles};

fn b(s: &str) -> Vec<u8> {
    s.as_bytes().to_vec()
}

#[test]
fn empty_record_has_no_entries() {
    let st = StateRecord::new();
    assert_eq!(st.len(), 0);
    assert_eq!(st.get(&b("acme/widget")), None);
}

#[test]
fn set_then_get_returns_marker() {
    let mut st = StateRecord::new();
    st.set(&b("acme/widget"), &b("v1.0.0"));
    assert_eq!(st.get(&b("acme/widget")), Some(b("v1.0.0")));
    assert_eq!(st.get(&b("acme/other")), None);
    st.set(&b("acme/widget"), &b("v1.1.0"));
    assert_eq!(st.get(&b("acme/widget")), Some(b("v1.1.0")));
    assert_eq!(st.len(), 1);
}

#[test]
fn reconcile_twice_is_idempotent() {
    let mut st = StateRecord::new();
    let repo = b("acme/widget");
    let marker = b("v1.0.0");
    let first = reconcile(&repo, &marker, &mut st);
    assert!(matches!(first, ReconcileOutcome::Changed { .. }));
    let second = reconcile(&repo, &marker, &mut st);
    assert!(matches!(second, ReconcileOutcome::Unchanged));
}

#[test]
fn four_passes_give_exactly_two_changes() {
    let mut st = StateRecord::new();
    let repo = b("acme/widget");
    let markers = [b("v1"), b("v1"), b("v2"), b("v2")];
    let mut changed: usize = 0;
    for m in markers.iter() {
        if matches!(reconcile(&repo, m, &mut st), ReconcileOutcome::Changed { .. }) {
            changed += 1;
        }
    }
    assert_eq!(changed, 2);
}

#[test]
fn reconcile_reports_previous_marker() {
    let mut st = StateRecord::new();
    let repo = b("acme/widget");
    match reconcile(&repo, &b("v1"), &mut st) {
        ReconcileOutcome::Changed { previous, current } => {
            assert_eq!(previous, None);
            assert_eq!(current, b("v1"));
        }
        _ => panic!("first reconcile must detect a change"),
    }
    match reconcile(&repo, &b("v2"), &mut st) {
        ReconcileOutcome::Changed { previous, current } => {
            assert_eq!(previous, Some(b("v1")));
            assert_eq!(current, b("v2"));
        }
        _ => panic!("a new marker must detect a change"),
    }
}

#[test]
fn release_tag_wins_over_raw_tag() {
    let releases = ApiOutcome::Items(vec![b("v2.0.0")]);
    let tags = ApiOutcome::Items(vec![b("v1.9.9")]);
    let r = resolve(&releases, &tags).unwrap();
    assert_eq!(r.marker, b("v2.0.0"));
    assert_eq!(r.provenance, Provenance::ReleaseTag);
}

#[test]
fn empty_releases_fall_back_to_tags() {
    let releases = ApiOutcome::Items(vec![]);
    let tags = ApiOutcome::Items(vec![b("v1.2.3")]);
    let r = resolve(&releases, &tags).unwrap();
    assert_eq!(r.marker, b("v1.2.3"));
    assert_eq!(r.provenance, Provenance::RawTag);
}

#[test]
fn failing_releases_fall_back_to_tags() {
    let releases = ApiOutcome::Failure;
    let tags = ApiOutcome::Items(vec![b("v1.2.3")]);
    let r = resolve(&releases, &tags).unwrap();
    assert_eq!(r.marker, b("v1.2.3"));
    assert_eq!(r.provenance, Provenance::RawTag);
}

#[test]
fn both_empty_is_not_found() {
    let releases = ApiOutcome::Items(vec![]);
    let tags = ApiOutcome::Items(vec![]);
    assert_eq!(resolve(&releases, &tags).unwrap_err(), ResolveError::NotFound);
}

#[test]
fn failing_tags_is_upstream_error() {
    let releases = ApiOutcome::Failure;
    let tags = ApiOutcome::Failure;
    assert_eq!(resolve(&releases, &tags).unwrap_err(), ResolveError::UpstreamError);
}

#[test]
fn encode_is_human_readable() {
    let mut st = StateRecord::new();
    st.set(&b("acme/widget"), &b("v1.0.0"));
    let bytes = encode_state(&st);
    assert_eq!(bytes, b("acme/widget\tv1.0.0\n"));
}

#[test]
fn codec_round_trips_plain_entries() {
    let mut st = StateRecord::new();
    st.set(&b("acme/widget"), &b("v1.0.0"));
    st.set(&b("acme/gadget"), &b("2024-01-01"));
    let bytes = encode_state(&st);
    let back = decode_state(&bytes).unwrap();
    assert_eq!(back.len(), 2);
    assert_eq!(back.get(&b("acme/widget")), Some(b("v1.0.0")));
    assert_eq!(back.get(&b("acme/gadget")), Some(b("2024-01-01")));
}

#[test]
fn codec_round_trips_separator_bytes() {
    let mut st = StateRecord::new();
    st.set(&b("odd\tname"), &b("v\n1\\0"));
    let bytes = encode_state(&st);
    let back = decode_state(&bytes).unwrap();
    assert_eq!(back.get(&b("odd\tname")), Some(b("v\n1\\0")));
}

#[test]
fn codec_round_trips_empty_record() {
    let st = StateRecord::new();
    let bytes = encode_state(&st);
    assert_eq!(bytes, b(""));
    let back = decode_state(&bytes).unwrap();
    assert_eq!(back.len(), 0);
}

#[test]
fn decode_rejects_line_without_separator() {
    assert_eq!(decode_state(&b("acme/widget v1\n")).unwrap_err(), LoadError::CorruptState);
}

#[test]
fn decode_rejects_dangling_escape() {
    assert_eq!(decode_state(&b("acme\\x\tv1\n")).unwrap_err(), LoadError::CorruptState);
}

#[test]
fn decode_rejects_unterminated_line() {
    assert_eq!(decode_state(&b("acme/widget\tv1")).unwrap_err(), LoadError::CorruptState);
}

#[test]
fn decode_rejects_duplicate_repository() {
    assert_eq!(
        decode_state(&b("acme/widget\tv1\nacme/widget\tv2\n")).unwrap_err(),
        LoadError::CorruptState
    );
}

#[test]
fn loading_an_absent_file_gives_the_empty_record() {
    let st = load_state(&None).unwrap();
    assert_eq!(st.len(), 0);
}

#[test]
fn loading_corrupt_bytes_fails() {
    assert_eq!(load_state(&Some(b("no separator here"))).unwrap_err(), LoadError::CorruptState);
}

#[test]
fn loading_saved_bytes_restores_the_record() {
    let mut st = StateRecord::new();
    st.set(&b("acme/widget"), &b("v1.0.0"));
    let mut files = StoredFiles::new();
    files.save(&st);
    let back = load_state(&files.target).unwrap();
    assert_eq!(back.get(&b("acme/widget")), Some(b("v1.0.0")));
}

#[test]
fn crash_between_write_and_rename_keeps_old_state() {
    let mut files = StoredFiles::new();
    let mut st = StateRecord::new();
    st.set(&b("acme/widget"), &b("v1.0.0"));
    files.save(&st);

    // A later pass starts a save and fails before the rename.
    st.set(&b("acme/widget"), &b("v2.0.0"));
    let half_written = encode_state(&st);
    files.write_temp(&half_written);
    // Crash: the temporary never replaces the target.

    let on_disk = files.target.clone().expect("target must still exist");
    let recovered = decode_state(&on_disk).unwrap();
    assert_eq!(recovered.get(&b("acme/widget")), Some(b("v1.0.0")));
}

#[test]
fn failed_delivery_retains_old_marker() {
    let mut st = StateRecord::new();
    let repo = b("acme/widget");
    st.set(&repo, &b("v1"));

    let n = begin_check(&repo, &b("v2"), &st).expect("a new marker must owe a notification");
    finish_check(&n, false, &mut st);
    assert_eq!(st.get(&repo), Some(b("v1")));

    // The same change is detected again on the next pass.
    assert!(begin_check(&repo, &b("v2"), &st).is_some());
}

#[test]
fn first_pass_notifies_and_persists() {
    // One tracked repository, no prior state, one formal release.
    let repos = [b("acme/widget")];
    let mut st = StateRecord::new();
    let mut files = StoredFiles::new();
    let mut notified: Vec<Vec<u8>> = Vec::new();

    for repo in repos.iter() {
        let releases = ApiOutcome::Items(vec![b("v2.0.0")]);
        let tags = ApiOutcome::Items(vec![]);
        if let Ok(res) = resolve(&releases, &tags) {
            if let Some(n) = begin_check(repo, &res.marker, &st) {
                notified.push(n.marker.clone());
                finish_check(&n, true, &mut st);
            }
        }
    }
    files.save(&st);

    assert_eq!(notified, vec![b("v2.0.0")]);
    let on_disk = files.target.clone().unwrap();
    assert_eq!(on_disk, b("acme/widget\tv2.0.0\n"));
    let recovered = decode_state(&on_disk).unwrap();
    assert_eq!(recovered.get(&b("acme/widget")), Some(b("v2.0.0")));
}

#[test]
fn second_pass_with_same_release_stays_quiet() {
    let repo = b("acme/widget");
    let mut st = StateRecord::new();
    st.set(&repo, &b("v2.0.0"));

    let releases = ApiOutcome::Items(vec![b("v2.0.0")]);
    let tags = ApiOutcome::Items(vec![]);
    let res = resolve(&releases, &tags).unwrap();
    assert!(begin_check(&repo, &res.marker, &st).is_none());
    assert_eq!(st.get(&repo), Some(b("v2.0.0")));
}

#[test]
fn release_error_falls_back_and_notifies() {
    let repo = b("acme/widget");
    let mut st = StateRecord::new();

    let releases = ApiOutcome::Failure;
    let tags = ApiOutcome::Items(vec![b("v2.0.1")]);
    let res = resolve(&releases, &tags).unwrap();
    assert_eq!(res.provenance, Provenance::RawTag);
    let n = begin_check(&repo, &res.marker, &st).expect("fallback marker owes a notification");
    assert_eq!(n.marker, b("v2.0.1"));
    finish_check(&n, true, &mut st);
    assert_eq!(st.get(&repo), Some(b("v2.0.1")));
}

#[test]
fn repo_id_splits_owner_and_name() {
    let (owner, name) = split_repo_id(&b("acme/widget")).unwrap();
    assert_eq!(owner, b("acme"));
    assert_eq!(name, b("widget"));
}

#[test]
fn repo_id_without_slash_is_invalid() {
    assert!(split_repo_id(&b("acmewidget")).is_none());
}

#[test]
fn repo_id_with_two_slashes_is_invalid() {
    assert!(split_repo_id(&b("acme/widget/extra")).is_none());
}
