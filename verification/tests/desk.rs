use chrono::Datelike;
use signin::actions::{can_look_up, can_sign_in, can_sign_out, create_user_with, sign_in_at, sign_out_at, SignInOutcome, SignOutOutcome};
use signin::util::cache::{
    append, clear, create, del, file_exists, leads_inside, read, stays_inside_cache, CacheStore,
};
use signin::util::remote::{
    api_url, auth, auth_checked, auth_with_salt, get_status, key_check_request, ping_request,
    push_many, InternetStatus,
};
use signin::util::sess::{get_sess_start, is_signed_in, mk_sess, push_queue, rm_and_get_sess, Session};
use signin::util::time::format_time;
use signin::util::traits::{form_body, Cacheable, Pushable, Queued};
use signin::util::user::{
    get_user, get_user_from_file, id_pattern_text, is_creatable_with, push_and_move_local,
    validate_id_for_year, Creatability, User,
};
use signin::util::log_at;
use signin::cache::sess as first_layout;

fn text(store: &CacheStore, name: &str) -> String {
    String::from_utf8(store.bytes_of(name).unwrap()).unwrap()
}

#[test]
fn append_creates_then_extends() {
    let mut store = CacheStore::new();
    append(&mut store, "f", "one");
    append(&mut store, "f", "two");
    assert_eq!(text(&store, "f"), "one\ntwo\n");
}

#[test]
fn create_overwrites_start_without_truncating() {
    let mut store = CacheStore::new();
    store.put("f", b"abcdefgh".to_vec());
    create(&mut store, "f", "xy");
    assert_eq!(text(&store, "f"), "xy\ndefgh");
}

#[test]
fn clear_leaves_one_empty_line() {
    let mut store = CacheStore::new();
    store.put("q", b"a,1,2\nb,3,4\n".to_vec());
    clear(&mut store, "q");
    assert_eq!(text(&store, "q"), "\n");
    assert_eq!(read(&store, "q"), "");
    store.put("n", b"\nkept\n".to_vec());
    clear(&mut store, "n");
    assert_eq!(read(&store, "n"), "");
    clear(&mut store, "new");
    assert_eq!(text(&store, "new"), "\n");
}

#[test]
fn del_and_exists() {
    let mut store = CacheStore::new();
    assert!(!file_exists(&store, "f"));
    create(&mut store, "f", "x");
    assert!(file_exists(&store, "f"));
    del(&mut store, "f");
    assert!(!file_exists(&store, "f"));
    del(&mut store, "f");
    assert!(!file_exists(&store, "f"));
}

#[test]
fn exists_knows_directories() {
    let mut store = CacheStore::new();
    assert!(file_exists(&store, ""));
    assert!(file_exists(&store, "sess"));
    assert!(file_exists(&store, "sess/active/"));
    assert!(file_exists(&store, "user//"));
    assert!(!file_exists(&store, "sess/act"));
    assert!(store.load_dir(&vec!["b".to_string()]));
    assert!(file_exists(&store, "b"));
    assert!(!file_exists(&store, "b/c"));
    create(&mut store, "b/c", "x");
    assert!(file_exists(&store, "b/"));
    assert!(file_exists(&store, "b/c"));
    assert!(!file_exists(&store, "b/c/"));
    assert!(!file_exists(&store, "b/c/."));
    assert!(!file_exists(&store, "b/c/d"));
    assert!(!file_exists(&store, "c"));
    assert!(is_signed_in(&store, ""));
    assert!(first_layout::is_signed_in(&store, ""));
}

#[test]
fn exists_resolves_dot_components() {
    let mut store = CacheStore::new();
    assert!(file_exists(&store, "sess/./active"));
    assert!(file_exists(&store, "sess/active/."));
    assert!(file_exists(&store, "./user/../sess//active"));
    assert!(file_exists(&store, "user/.."));
    assert!(!file_exists(&store, "nothing/.."));
    assert!(is_signed_in(&store, "."));
    assert!(is_signed_in(&store, ".."));
    append(&mut store, "user/local", "x");
    assert!(file_exists(&store, "sess/../user/./local"));
    assert!(!file_exists(&store, "user/local/.."));
    assert!(!stays_inside_cache(&store, ".."));
    assert!(!stays_inside_cache(&store, "/etc"));
    assert!(!stays_inside_cache(&store, "sess/../../x"));
    assert!(stays_inside_cache(&store, "sess/../x"));
}

#[test]
fn writes_follow_resolved_names() {
    let mut store = CacheStore::new();
    append(&mut store, "sess/./queue", "a,1,2");
    append(&mut store, "user/../sess/queue", "b,3,4");
    assert_eq!(text(&store, "sess/queue"), "a,1,2\nb,3,4\n");
    assert_eq!(read(&store, "sess//queue"), "a,1,2\nb,3,4");
    assert_eq!(read(&store, "sess"), "");
    del(&mut store, "./sess/queue");
    assert!(!file_exists(&store, "sess/queue"));
    del(&mut store, "sess/active");
    assert!(file_exists(&store, "sess/active"));
    assert!(!leads_inside(&store, "missing/file"));
    assert!(leads_inside(&store, "sess/new"));
}

#[test]
fn loading_keeps_the_shape_of_a_directory() {
    let mut store = CacheStore::new();
    assert!(!store.load_file(&vec!["a".to_string(), "b".to_string()], b"x".to_vec()));
    assert!(store.load_file(&vec!["a".to_string()], b"x".to_vec()));
    assert!(!store.load_dir(&vec!["a".to_string()]));
    assert!(!store.load_dir(&vec!["a".to_string(), "b".to_string()]));
    assert!(!store.load_dir(&vec!["sess".to_string(), "queue".to_string()]));
    assert!(!store.load_dir(&vec![".".to_string()]));
    assert!(!store.load_file(&vec!["user".to_string()], b"x".to_vec()));
    assert!(store.load_dir(&vec!["d".to_string()]));
    assert!(store.load_dir(&vec!["d".to_string(), "e".to_string()]));
    assert!(store.load_file(&vec!["d".to_string(), "e".to_string(), "f".to_string()], b"y".to_vec()));
    assert!(file_exists(&store, "d/e/f"));
    assert!(file_exists(&store, "d/e"));
}

#[test]
fn read_trims_unicode_whitespace() {
    let mut store = CacheStore::new();
    store.put("f", " \t\u{a0}hello world\u{3000}\n\n".as_bytes().to_vec());
    assert_eq!(read(&store, "f"), "hello world");
}

#[test]
fn read_of_invalid_utf8_is_empty() {
    let mut store = CacheStore::new();
    store.put("f", vec![0x66, 0xff, 0x66]);
    assert_eq!(read(&store, "f"), "");
}

#[test]
fn names_lists_every_file() {
    let mut store = CacheStore::new();
    create(&mut store, "a", "1");
    assert!(store.load_dir(&vec!["b".to_string()]));
    create(&mut store, "b/c", "2");
    let mut names = store.names();
    names.sort();
    assert_eq!(names, vec!["a".to_string(), "b/c".to_string()]);
}

#[test]
fn session_serializes_as_comma_line() {
    let s = Session { id: "19400123".to_string(), start: 100, end: 3761 };
    assert_eq!(s.serialize(), "19400123,100,3761");
}

#[test]
fn session_round_trip() {
    let s = Session { id: "abc".to_string(), start: 0, end: u64::MAX };
    let t = Session::deserialize(&s.serialize());
    assert_eq!(t.id, "abc");
    assert_eq!(t.start, 0);
    assert_eq!(t.end, u64::MAX);
}

#[test]
fn session_deserialize_accepts_plus_and_extra_fields() {
    let t = Session::deserialize("x,+5,007,extra");
    assert_eq!(t.id, "x");
    assert_eq!(t.start, 5);
    assert_eq!(t.end, 7);
}

#[test]
fn session_post_request() {
    let s = Session { id: "7".to_string(), start: 1, end: 2 };
    let r = s.get_post_req("k");
    assert_eq!(r.endpt, "/put/entry");
    assert_eq!(r.body, "id=7&start=1&end=2");
    assert_eq!(r.key.as_deref(), Some("k"));
    assert_eq!(form_body(&r), "id=7&start=1&end=2&key=k");
}

#[test]
fn user_round_trip_and_request() {
    let u = User { id: "19400123".to_string(), name: "Ada".to_string(), lvl: 255 };
    assert_eq!(u.serialize(), "19400123,Ada,255");
    let t = User::deserialize(&u.serialize());
    assert_eq!(t.id, "19400123");
    assert_eq!(t.name, "Ada");
    assert_eq!(t.lvl, 255);
    let r = u.get_post_req("key");
    assert_eq!(r.endpt, "/put/user");
    assert_eq!(r.body, "id=19400123&name=Ada&lvl=255");
    assert_eq!(r.key.as_deref(), Some("key"));
    assert_eq!(form_body(&r), "id=19400123&name=Ada&lvl=255&key=key");
}

#[test]
fn cache_appends_to_queue_and_local_files() {
    let mut store = CacheStore::new();
    Session { id: "a".to_string(), start: 1, end: 2 }.cache(&mut store);
    User { id: "b".to_string(), name: "B".to_string(), lvl: 1 }.cache(&mut store);
    assert_eq!(text(&store, "sess/queue"), "a,1,2\n");
    assert_eq!(text(&store, "user/local"), "b,B,1\n");
}

#[test]
fn session_file_round_trip() {
    let mut store = CacheStore::new();
    assert!(!is_signed_in(&store, "42"));
    mk_sess(&mut store, "42", 1234567);
    assert!(is_signed_in(&store, "42"));
    assert_eq!(text(&store, "sess/active/42"), "1234567\n");
    assert_eq!(get_sess_start(&store, "42"), 1234567);
    assert_eq!(rm_and_get_sess(&mut store, "42"), 1234567);
    assert!(!is_signed_in(&store, "42"));
    store.put("sess/active/1", b"99\n".to_vec());
    mk_sess(&mut store, "1", 1234);
    assert_eq!(text(&store, "sess/active/1"), "1234\n");
    assert_eq!(get_sess_start(&store, "1"), 1234);
}

#[test]
fn empty_id_counts_as_signed_in() {
    let mut store = CacheStore::new();
    append(&mut store, "user/server", ",Nobody,1");
    assert!(can_sign_in(&store, ""));
    assert!(matches!(sign_in_at(&mut store, "", 10), SignInOutcome::AlreadySignedIn(_)));
    assert!(!can_sign_out(&store, ""));
}

#[test]
fn dot_id_counts_as_signed_in() {
    let mut store = CacheStore::new();
    append(&mut store, "user/server", ".,Dot,1");
    assert!(matches!(sign_in_at(&mut store, ".", 10), SignInOutcome::AlreadySignedIn(_)));
    assert!(!file_exists(&store, "sess/active/./x"));
    assert_eq!(store.names(), vec!["user/server".to_string()]);
}

#[test]
fn ids_whose_session_file_cannot_be_opened_are_refused() {
    let mut store = CacheStore::new();
    append(&mut store, "user/server", "a/b,Slash,1");
    append(&mut store, "user/server", "../../x,Near,1");
    append(&mut store, "user/server", "../../../x,Far,1");
    assert!(!can_sign_in(&store, "a/b"));
    assert!(can_sign_out(&store, "a/b"));
    assert!(matches!(sign_out_at(&mut store, "a/b", 5), SignOutOutcome::NotSignedIn(_)));
    assert!(can_sign_in(&store, "../../x"));
    assert!(matches!(sign_in_at(&mut store, "../../x", 7), SignInOutcome::SignedIn(_)));
    assert_eq!(text(&store, "x"), "7\n");
    assert!(!can_sign_in(&store, "../../../x"));
    assert!(!can_sign_out(&store, "../../../x"));
}

#[test]
fn signed_out_user_is_not_signed_in() {
    let mut store = CacheStore::new();
    append(&mut store, "user/server", "5,Five,1");
    assert!(matches!(sign_in_at(&mut store, "5", 100), SignInOutcome::SignedIn(_)));
    assert!(is_signed_in(&store, "5"));
    assert!(matches!(sign_out_at(&mut store, "5", 160), SignOutOutcome::SignedOut(_, _)));
    assert!(!is_signed_in(&store, "5"));
    assert!(!file_exists(&store, "sess/active/5"));
}

#[test]
fn push_queue_reads_every_line_and_clears() {
    let mut store = CacheStore::new();
    Session { id: "a".to_string(), start: 1, end: 2 }.cache(&mut store);
    Session { id: "b".to_string(), start: 3, end: 4 }.cache(&mut store);
    let mut queue: Vec<Queued> = Vec::new();
    push_queue(&mut queue, &mut store);
    assert_eq!(queue.len(), 2);
    match &queue[1] {
        Queued::Session(s) => {
            assert_eq!(s.id, "b");
            assert_eq!(s.start, 3);
            assert_eq!(s.end, 4);
        }
        _ => panic!("expected a session"),
    }
    assert_eq!(text(&store, "sess/queue"), "\n");
    push_queue(&mut queue, &mut store);
    assert_eq!(queue.len(), 2);
    Session { id: "c".to_string(), start: 5, end: 6 }.cache(&mut store);
    assert_eq!(text(&store, "sess/queue"), "\nc,5,6\n");
    push_queue(&mut queue, &mut store);
    assert_eq!(queue.len(), 3);
    match &queue[2] {
        Queued::Session(s) => assert_eq!(s.id, "c"),
        _ => panic!("expected a session"),
    }
}

#[test]
fn push_and_move_local_moves_users() {
    let mut store = CacheStore::new();
    User { id: "1".to_string(), name: "One".to_string(), lvl: 1 }.cache(&mut store);
    User { id: "2".to_string(), name: "Two".to_string(), lvl: 2 }.cache(&mut store);
    let mut queue: Vec<Queued> = Vec::new();
    push_and_move_local(&mut queue, &mut store);
    assert_eq!(queue.len(), 2);
    assert_eq!(text(&store, "user/server"), "1,One,1\n2,Two,2\n");
    assert_eq!(text(&store, "user/local"), "\n");
    assert_eq!(read(&store, "user/local"), "");
    let reqs = push_many(&queue, "k");
    assert_eq!(reqs.len(), 2);
    assert_eq!(reqs[0].endpt, "/put/user");
    assert_eq!(reqs[1].body, "id=2&name=Two&lvl=2");
    assert_eq!(reqs[1].key.as_deref(), Some("k"));
    assert_eq!(form_body(&reqs[1]), "id=2&name=Two&lvl=2&key=k");
    push_and_move_local(&mut queue, &mut store);
    assert_eq!(queue.len(), 2);
    assert_eq!(text(&store, "user/server"), "1,One,1\n2,Two,2\n");
    assert!(get_user(&store, "1").is_some());
}

#[test]
fn moving_no_users_leaves_the_server_file_alone() {
    let mut store = CacheStore::new();
    clear(&mut store, "user/local");
    let mut queue: Vec<Queued> = Vec::new();
    push_and_move_local(&mut queue, &mut store);
    assert!(queue.is_empty());
    assert!(!file_exists(&store, "user/server"));
}

#[test]
fn get_user_passes_over_empty_lines() {
    let mut store = CacheStore::new();
    clear(&mut store, "user/local");
    assert!(get_user(&store, "").is_none());
    assert!(get_user(&store, "5").is_none());
    append(&mut store, "user/local", "5,Five,1");
    assert_eq!(get_user(&store, "5").unwrap().name, "Five");
    store.put("user/server", b"\n\n6,Six,1\n".to_vec());
    assert_eq!(get_user(&store, "6").unwrap().name, "Six");
    store.put("user/server", b"1,A,1\n\n2,B,1\n".to_vec());
    assert_eq!(get_user_from_file(&store, "2", "user/server").unwrap().name, "B");
}

#[test]
fn get_user_prefers_server_file() {
    let mut store = CacheStore::new();
    append(&mut store, "user/local", "5,Local,1");
    append(&mut store, "user/server", "5,Server,1");
    let u = get_user(&store, "5").unwrap();
    assert_eq!(u.name, "Server");
    append(&mut store, "user/local", "6,Six,1");
    assert_eq!(get_user(&store, "6").unwrap().name, "Six");
    assert!(get_user(&store, "7").is_none());
    assert!(get_user(&CacheStore::new(), "5").is_none());
}

#[test]
fn get_user_from_file_takes_first_match() {
    let mut store = CacheStore::new();
    append(&mut store, "users", "1,A,1");
    append(&mut store, "users", "2,B,1");
    append(&mut store, "users", "2,C,1");
    assert_eq!(get_user_from_file(&store, "2", "users").unwrap().name, "B");
    assert!(get_user_from_file(&store, "3", "users").is_none());
}

#[test]
fn id_pattern_within_one_decade() {
    assert_eq!(id_pattern_text(2025), "2[4-9][0-9]{3}[0-9]{3}");
}

#[test]
fn id_pattern_across_decades() {
    assert_eq!(id_pattern_text(2019), "(?:(?:1[8-9])|(?:2[0-3]))[0-9]{3}[0-9]{3}");
}

#[test]
fn validate_id_in_a_year() {
    assert_eq!(validate_id_for_year("24400123", 2025), Some(true));
    assert_eq!(validate_id_for_year("23400123", 2025), Some(false));
    assert_eq!(validate_id_for_year("2940012", 2025), Some(false));
    assert_eq!(validate_id_for_year("x18", 2019), Some(false));
    assert_eq!(validate_id_for_year("18400123", 2019), Some(true));
    assert_eq!(validate_id_for_year("20400123", 2019), Some(true));
    assert_eq!(validate_id_for_year("2040012", 2019), Some(false));
    assert_eq!(validate_id_for_year("24400123", 2019), Some(false));
}

#[test]
fn creatability_rules() {
    let plain = User { id: "abc".to_string(), name: "Ann".to_string(), lvl: 1 };
    let comma = User { id: "a,b".to_string(), name: "Ann".to_string(), lvl: 1 };
    let comma_name = User { id: "ab".to_string(), name: "A,nn".to_string(), lvl: 1 };
    let doe = User { id: "24123456".to_string(), name: "Doe, John".to_string(), lvl: 1 };
    assert!(matches!(is_creatable_with(&plain, true), Creatability::Unobstructed));
    assert!(matches!(is_creatable_with(&comma, true), Creatability::Impossible));
    assert!(matches!(is_creatable_with(&doe, true), Creatability::Impossible));
    assert!(matches!(is_creatable_with(&plain, false), Creatability::Privileged));
    assert!(matches!(is_creatable_with(&comma, false), Creatability::Impossible));
    assert!(matches!(is_creatable_with(&comma_name, false), Creatability::Impossible));
}

#[test]
fn create_user_caches_only_unobstructed() {
    let mut store = CacheStore::new();
    let (u, c) = create_user_with(&mut store, "9", "Nine", false);
    assert!(matches!(c, Creatability::Privileged));
    assert_eq!(u.lvl, 1);
    assert!(!file_exists(&store, "user/local"));
    let (_, c) = create_user_with(&mut store, "9", "Nine", true);
    assert!(matches!(c, Creatability::Unobstructed));
    assert_eq!(text(&store, "user/local"), "9,Nine,1\n");
}

#[test]
fn sign_in_then_out() {
    let mut store = CacheStore::new();
    append(&mut store, "user/server", "77,Grace,1");
    assert!(matches!(sign_in_at(&mut store, "88", 10), SignInOutcome::NoSuchUser));
    match sign_in_at(&mut store, "77", 1000) {
        SignInOutcome::SignedIn(u) => assert_eq!(u.name, "Grace"),
        _ => panic!("expected a sign-in"),
    }
    assert!(matches!(sign_in_at(&mut store, "77", 1500), SignInOutcome::AlreadySignedIn(_)));
    match sign_out_at(&mut store, "77", 4661) {
        SignOutOutcome::SignedOut(u, s) => {
            assert_eq!(u.name, "Grace");
            assert_eq!(s.id, "77");
            assert_eq!(s.start, 1000);
            assert_eq!(s.end, 4661);
            assert_eq!(format_time(s.end - s.start), "01:01:01");
        }
        _ => panic!("expected a sign-out"),
    }
    assert!(!is_signed_in(&store, "77"));
    assert_eq!(text(&store, "sess/queue"), "77,1000,4661\n");
    assert!(matches!(sign_out_at(&mut store, "77", 5000), SignOutOutcome::NotSignedIn(_)));
}

#[test]
fn format_time_pads_each_field() {
    assert_eq!(format_time(0), "00:00:00");
    assert_eq!(format_time(3661), "01:01:01");
    assert_eq!(format_time(86399), "23:59:59");
}

#[test]
fn format_time_shows_every_hour_of_long_sessions() {
    assert_eq!(format_time(86400), "24:00:00");
    assert_eq!(format_time(90061), "25:01:01");
    assert_eq!(format_time(360000), "100:00:00");
}

#[test]
fn log_line_format() {
    let mut store = CacheStore::new();
    log_at(&mut store, "main", "started", 5);
    assert_eq!(text(&store, "log"), "[main @ 5] started\n");
}

#[test]
fn status_from_ping_reply() {
    assert!(matches!(get_status(None), InternetStatus::Offline));
    assert!(matches!(get_status(Some("ping".to_string())), InternetStatus::Online));
    assert!(matches!(get_status(Some("<html>".to_string())), InternetStatus::Portal));
    let r = ping_request();
    assert_eq!(r.endpt, "/ping");
    assert_eq!(r.body, "ping");
    assert!(r.key.is_none());
    assert_eq!(form_body(&r), "ping");
}

#[test]
fn requests_and_urls() {
    let r = key_check_request("s3cret");
    assert_eq!(r.endpt, "/key/check");
    assert_eq!(r.body, "");
    assert_eq!(r.key.as_deref(), Some("s3cret"));
    assert_eq!(form_body(&r), "key=s3cret");
    assert_eq!(api_url("/ping"), "https://team6479-signin.herokuapp.com/api/ping");
}

#[test]
fn auth_online_outcomes() {
    let mut store = CacheStore::new();
    let r = auth("u", "pw", &InternetStatus::Online, None, &mut store);
    assert_eq!(r, Err("reqwest error".to_string()));
    let r = auth("u", "pw", &InternetStatus::Online, Some("false".to_string()), &mut store);
    assert_eq!(r, Ok(false));
    assert!(!file_exists(&store, "passwd"));
}

#[test]
fn auth_offline_without_hash() {
    let mut store = CacheStore::new();
    let r = auth("u", "pw", &InternetStatus::Offline, None, &mut store);
    assert_eq!(r, Err("No cached password, internet required".to_string()));
    let r = auth("u", "pw", &InternetStatus::Portal, Some("true".to_string()), &mut store);
    assert_eq!(r, Err("No cached password, internet required".to_string()));
}

#[test]
fn accepted_password_passes_offline() {
    let mut store = CacheStore::new();
    let salt = [7u8; 16];
    let r = auth_with_salt("u", "pw", &InternetStatus::Online, Some("true".to_string()), &salt, &mut store);
    assert_eq!(r, Ok(true));
    let kept = read(&store, "passwd");
    assert!(kept.starts_with("$argon2id$"));
    assert_eq!(auth("u", "pw", &InternetStatus::Offline, None, &mut store), Ok(true));
    assert_eq!(auth("u", "other", &InternetStatus::Portal, None, &mut store), Ok(false));
}

#[test]
fn random_salt_auth_keeps_a_hash() {
    let mut store = CacheStore::new();
    let r = auth("u", "pw", &InternetStatus::Online, Some("true".to_string()), &mut store);
    assert_eq!(r, Ok(true));
    assert!(file_exists(&store, "passwd"));
    assert_eq!(auth("u", "pw", &InternetStatus::Offline, None, &mut store), Ok(true));
}

#[test]
fn unreadable_hash_is_refused() {
    let mut store = CacheStore::new();
    create(&mut store, "passwd", "not a hash");
    assert_eq!(auth_checked("u", "pw", &InternetStatus::Offline, None, &mut store), None);
    assert_eq!(
        auth_checked("u", "pw", &InternetStatus::Online, Some("nope".to_string()), &mut store),
        Some(Ok(false))
    );
}

#[test]
fn legacy_session_files() {
    let mut store = CacheStore::new();
    assert!(!first_layout::is_signed_in(&store, "3"));
    first_layout::mk_sess(&mut store, "3", 12);
    assert!(first_layout::is_signed_in(&store, "3"));
    assert_eq!(text(&store, "sess/3"), "12\n");
}

#[test]
fn clock_reads_now() {
    let before = std::time::SystemTime::now()
        .duration_since(std::time::UNIX_EPOCH)
        .unwrap()
        .as_secs();
    let t = signin::util::time::get_time();
    let after = std::time::SystemTime::now()
        .duration_since(std::time::UNIX_EPOCH)
        .unwrap()
        .as_secs();
    assert!(before <= t && t <= after);
    assert!(t <= 8_210_266_876_799);
}

#[test]
fn validate_id_uses_the_current_year() {
    let year = chrono::Local::now().year();
    let yy = year % 100;
    let id = format!("{:02}400123", (yy + 1) % 100);
    let expected = validate_id_for_year(&id, year).unwrap();
    assert_eq!(signin::util::user::validate_id(&id), expected);
    assert_eq!(signin::cache::user::is_actionable(&id), expected);
    assert_eq!(signin::cache::user::validate_id("no digits here"), false);
    let req = User { id: "no,digits".to_string(), name: "x".to_string(), lvl: 1 };
    assert!(matches!(signin::util::user::is_creatable(&req), Creatability::Impossible));
}

#[test]
fn created_user_can_sign_in() {
    let mut store = CacheStore::new();
    append(&mut store, "user/local", "1,Other,1");
    let (_, c) = create_user_with(&mut store, "24400123", "Lin", true);
    assert!(matches!(c, Creatability::Unobstructed));
    match sign_in_at(&mut store, "24400123", 42) {
        SignInOutcome::SignedIn(u) => {
            assert_eq!(u.id, "24400123");
            assert_eq!(u.name, "Lin");
            assert_eq!(u.lvl, 1);
        }
        _ => panic!("expected a sign-in"),
    }
}

#[test]
fn readability_checks() {
    let mut store = CacheStore::new();
    assert!(can_look_up(&store, "1"));
    append(&mut store, "user/server", "1,One,1");
    append(&mut store, "user/server", "broken line");
    assert!(can_look_up(&store, "1"));
    assert!(!can_look_up(&store, "2"));
    assert_eq!(signin::util::user::scan_user_file(&store, "user/server", "1"), (true, true));
    assert_eq!(signin::util::user::scan_user_file(&store, "user/server", "2"), (false, false));
    store.put("sess/active/1", b"not a number\n".to_vec());
    assert!(!can_sign_out(&store, "1"));
    assert!(signin::util::sess::session_start_readable(&store, "9"));
    assert!(!signin::util::sess::queue_readable(&store));
    append(&mut store, "sess/queue", "a,1,2");
    assert!(signin::util::sess::queue_readable(&store));
    append(&mut store, "sess/queue", "a,1");
    assert!(!signin::util::sess::queue_readable(&store));
    append(&mut store, "user/local", "x,X,300");
    assert!(!signin::util::user::local_users_readable(&store));
}
