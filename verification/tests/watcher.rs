use comic_catalog::auth::AuthGuard;
use comic_catalog::catalog::Catalog;
use comic_catalog::comic::CoverImage;
use comic_catalog::scanner::{DirEntry, ScanRequest, Scanner};
use comic_catalog::service::ComicService;
use comic_catalog::watcher::{is_qualifying, ChangeKind, WatchAction, Watcher};

#[test]
fn create_modify_and_remove_call_for_a_scan() {
    assert!(is_qualifying(ChangeKind::Create));
    assert!(is_qualifying(ChangeKind::Modify));
    assert!(is_qualifying(ChangeKind::Remove));
    assert!(!is_qualifying(ChangeKind::Access));
    assert!(!is_qualifying(ChangeKind::Any));
    assert!(!is_qualifying(ChangeKind::Other));
}

#[test]
fn an_event_starts_a_scan_where_none_runs() {
    let mut w = Watcher::new();
    assert_eq!(w, Watcher { scanning: false, pending: false });
    assert_eq!(w.on_event(ChangeKind::Create), WatchAction::StartScan);
    assert_eq!(w, Watcher { scanning: true, pending: false });
    assert_eq!(w.on_scan_finished(), WatchAction::Idle);
    assert_eq!(w, Watcher { scanning: false, pending: false });
}

#[test]
fn events_that_do_not_qualify_are_passed_over() {
    let mut w = Watcher::new();
    assert_eq!(w.on_event(ChangeKind::Access), WatchAction::Idle);
    assert_eq!(w.on_event(ChangeKind::Other), WatchAction::Idle);
    assert_eq!(w, Watcher::new());
    let mut w = Watcher { scanning: true, pending: false };
    assert_eq!(w.on_event(ChangeKind::Any), WatchAction::Idle);
    assert_eq!(w, Watcher { scanning: true, pending: false });
}

#[test]
fn a_burst_of_events_is_one_scan_and_one_more_behind_it() {
    let mut w = Watcher::new();
    let mut started = 0;
    for kind in [ChangeKind::Create, ChangeKind::Modify, ChangeKind::Modify, ChangeKind::Remove] {
        if w.on_event(kind) == WatchAction::StartScan {
            started += 1;
        }
    }
    assert_eq!(started, 1);
    assert_eq!(w, Watcher { scanning: true, pending: true });
    assert_eq!(w.on_scan_finished(), WatchAction::StartScan);
    assert_eq!(w, Watcher { scanning: true, pending: false });
    assert_eq!(w.on_scan_finished(), WatchAction::Idle);
    assert_eq!(w, Watcher::new());
}

#[test]
fn there_is_never_more_than_one_scan_running() {
    let mut w = Watcher::new();
    let mut running = 0;
    let script = [1u8, 1, 0, 1, 0, 0, 1, 2, 1, 0, 1, 1, 0, 0, 0, 2, 1, 0];
    for step in script {
        let action = match step {
            0 => {
                if running == 0 {
                    continue;
                }
                running -= 1;
                w.on_scan_finished()
            }
            1 => w.on_event(ChangeKind::Modify),
            _ => w.on_event(ChangeKind::Access),
        };
        if action == WatchAction::StartScan {
            running += 1;
        }
        assert!(running <= 1);
        assert_eq!(running == 1, w.scanning);
    }
}

#[test]
fn the_end_of_a_scan_that_never_ran_starts_nothing() {
    let mut w = Watcher::new();
    assert_eq!(w.on_scan_finished(), WatchAction::Idle);
    assert_eq!(w, Watcher::new());
}

fn scan_names(files: &[&str]) -> Catalog {
    let mut scanner = Scanner::new();
    loop {
        scanner = match scanner.request() {
            ScanRequest::ListDir { .. } => scanner.on_listing(Some(
                files.iter().map(|f| DirEntry { name: f.to_string(), is_dir: false }).collect(),
            )),
            ScanRequest::ReadFile { file_name, .. } => {
                scanner.on_cover(Some(CoverImage { data: file_name.into_bytes() }))
            }
            ScanRequest::Nothing => break,
        };
    }
    scanner.finish().unwrap().unwrap()
}

#[test]
fn a_created_comic_is_listed_after_the_rescan() {
    let mut store = ComicService::new(scan_names(&["hero.cbz"]));
    let mut watcher = Watcher::new();
    assert!(store.get_comic("new.cbz").is_none());
    assert_eq!(watcher.on_event(ChangeKind::Create), WatchAction::StartScan);
    assert!(store.apply_scan(Ok(scan_names(&["hero.cbz", "new.cbz"]))));
    assert_eq!(watcher.on_scan_finished(), WatchAction::Idle);
    let listed: Vec<String> = store.get_all_comics().into_iter().map(|c| c.id).collect();
    assert!(listed.contains(&"new.cbz".to_string()));
    assert!(listed.contains(&"hero.cbz".to_string()));
    assert_eq!(store.get_cover("new.cbz").unwrap().data, b"new.cbz".to_vec());
}

#[test]
fn without_a_password_every_request_passes() {
    assert_eq!(AuthGuard::from_request(None, None), Some(AuthGuard));
    assert_eq!(AuthGuard::from_request(None, Some("nonsense")), Some(AuthGuard));
}

#[test]
fn the_right_password_passes() {
    assert_eq!(AuthGuard::from_request(Some("secret"), Some("Basic dXNlcjpzZWNyZXQ=")), Some(AuthGuard));
    assert_eq!(AuthGuard::from_request(Some("pw"), Some("Basic YWRtaW46cHc=")), Some(AuthGuard));
    assert_eq!(AuthGuard::from_request(Some("secret"), Some("Basic OnNlY3JldA==")), Some(AuthGuard));
    assert_eq!(AuthGuard::from_request(Some(""), Some("Basic dXNlcjo=")), Some(AuthGuard));
    assert_eq!(
        AuthGuard::from_request(Some("pässword"), Some("Basic w7w6cMOkc3N3b3Jk")),
        Some(AuthGuard)
    );
}

#[test]
fn a_request_without_a_header_is_turned_away() {
    assert_eq!(AuthGuard::from_request(Some("secret"), None), None);
}

#[test]
fn a_header_of_another_scheme_is_turned_away() {
    assert_eq!(AuthGuard::from_request(Some("secret"), Some("Bearer dXNlcjpzZWNyZXQ=")), None);
    assert_eq!(AuthGuard::from_request(Some("secret"), Some("basic dXNlcjpzZWNyZXQ=")), None);
    assert_eq!(AuthGuard::from_request(Some("secret"), Some("BasicdXNlcjpzZWNyZXQ=")), None);
    assert_eq!(AuthGuard::from_request(Some("secret"), Some("dXNlcjpzZWNyZXQ=")), None);
    assert_eq!(AuthGuard::from_request(Some("secret"), Some("")), None);
}

#[test]
fn credentials_that_are_not_base64_are_turned_away() {
    assert_eq!(AuthGuard::from_request(Some("secret"), Some("Basic user:secret")), None);
    assert_eq!(AuthGuard::from_request(Some("secret"), Some("Basic dXNlcjpzZWNyZXQ")), None);
    assert_eq!(AuthGuard::from_request(Some("secret"), Some("Basic  dXNlcjpzZWNyZXQ=")), None);
    assert_eq!(AuthGuard::from_request(Some("secret"), Some("Basic ")), None);
}

#[test]
fn credentials_that_are_not_text_are_turned_away() {
    assert_eq!(AuthGuard::from_request(Some("a"), Some("Basic /zph")), None);
}

#[test]
fn the_wrong_password_is_turned_away() {
    assert_eq!(AuthGuard::from_request(Some("other"), Some("Basic dXNlcjpzZWNyZXQ=")), None);
    assert_eq!(AuthGuard::from_request(Some("Secret"), Some("Basic dXNlcjpzZWNyZXQ=")), None);
    assert_eq!(AuthGuard::from_request(Some("secret "), Some("Basic dXNlcjpzZWNyZXQ=")), None);
    assert_eq!(AuthGuard::from_request(Some("secret"), Some("Basic dXNlcjo=")), None);
}

#[test]
fn credentials_need_exactly_one_colon() {
    assert_eq!(AuthGuard::from_request(Some("nosep"), Some("Basic bm9zZXA=")), None);
    assert_eq!(AuthGuard::from_request(Some("c"), Some("Basic YTpiOmM=")), None);
    assert_eq!(AuthGuard::from_request(Some("b:c"), Some("Basic YTpiOmM=")), None);
}
