use ecnu_power_usage::archive::{
    plan_archive, plan_delete, sort_metas, time_span, ArchiveCommit, ArchiveMeta, CommitAction,
};
use ecnu_power_usage::config::{is_sanitized_filename, Cookies, RoomConfig};
use ecnu_power_usage::degree::Degree;
use ecnu_power_usage::engine::Engine;
use ecnu_power_usage::error::CSError;
use ecnu_power_usage::log::Sample;
use ecnu_power_usage::poll::{classify_answer, degree_reply, poll_step, LoopState, PollDecision, QueryOutcome};
use ecnu_power_usage::recorder::RecordLog;
use ecnu_power_usage::rooms::{
    find_district, find_room, room_lookup, Area, Building, Buildings, District, Districts, Floor,
    Floors, ResolveStart, Room, Rooms,
    RoomInfo, RoomInfoCache,
};
use ecnu_power_usage::span::TimeSpan;
use ecnu_power_usage::time::Timestamp;

fn t(secs: i64) -> Timestamp {
    Timestamp { secs, nanos: 0, offset: 8 * 3600 }
}

fn room(no: &str) -> RoomConfig {
    RoomConfig { room_no: no.to_string(), elcarea: 102, elcbuis: "new-83_MH".to_string() }
}

fn info() -> RoomInfo {
    RoomInfo {
        area: Area { area_id: "102".into(), area_name: "华东师范大学".into() },
        district: District { district_id: "MH".into(), district_name: "剑川路公寓".into() },
        building: Building { building_id: "new-83_MH".into(), building_name: "闵行本科生4号楼".into() },
        floor: Floor { floor_id: "257".into(), floor_name: "4".into() },
        room: Room { room_id: "4408_MH_83_257".into(), room_name: "4408".into() },
    }
}

fn log_of(samples: &[(i64, i64)]) -> RecordLog {
    let mut log = RecordLog::open(Vec::new()).unwrap();
    let v: Vec<Sample> =
        samples.iter().map(|&(s, m)| Sample { time: t(s), degree: Degree { micros: m } }).collect();
    log.record_batch(&v);
    log
}

#[test]
fn delete_missing_archive_is_not_found() {
    let archives = vec!["a.csv".to_string(), "a.toml".to_string()];
    let r = plan_delete("not-exists", &archives, &Vec::new(), t(1_769_236_532));
    assert_eq!(r.err(), Some(CSError::ArchiveNotFound));
}

#[test]
fn delete_takes_first_free_number() {
    let archives = vec!["a.csv".to_string(), "a.toml".to_string()];
    let deleted = vec!["a.csv.20260124-1435.0".to_string(), "a.csv.20260124-1435.1".to_string()];
    let plan = plan_delete("a", &archives, &deleted, t(1_769_236_532)).unwrap();
    assert_eq!(plan.data_file, "a.csv");
    assert_eq!(plan.meta_file, "a.toml");
    assert_eq!(plan.deleted_data_file, "a.csv.20260124-1435.2");
    assert_eq!(plan.deleted_meta_file, "a.toml.20260124-1435.2");
}

#[test]
fn delete_rejects_unsafe_name() {
    let r = plan_delete("../x", &Vec::new(), &Vec::new(), t(0));
    assert_eq!(r.err(), Some(CSError::InvalidArchiveName));
}

#[test]
fn switch_room_rejects_slash_before_any_directory() {
    assert_eq!(room("4408/MH_83_257").dir_name(), Err(CSError::InvalidRoomConfig));
    assert_eq!(room("..").dir_name(), Err(CSError::InvalidRoomConfig));
    assert_eq!(room("  ").dir_name(), Ok("unknown".to_string()));
    assert_eq!(room("4408_MH_83_257").dir_name(), Ok("4408_MH_83_257".to_string()));
}

#[test]
fn sanitized_filenames() {
    assert!(is_sanitized_filename("backup-2026"));
    assert!(!is_sanitized_filename(""));
    assert!(!is_sanitized_filename("a:b"));
    assert!(!is_sanitized_filename("a\\b"));
    assert!(!is_sanitized_filename("..."));
}

#[test]
fn room_config_validity() {
    assert!(RoomConfig::empty().is_invalid());
    assert!(!room("4408_MH_83_257").is_invalid());
    let mut r = room("4408_MH_83_257");
    r.elcarea = -1;
    assert!(r.is_invalid());
}

#[test]
fn cookies_are_cleaned() {
    let c = Cookies {
        j_session_id: "ab c;d\u{7}".to_string(),
        cookie: "x\"y,z\\w".to_string(),
        x_csrf_token: "to ken".to_string(),
    };
    let s = c.sanitize();
    assert_eq!(s.j_session_id, "abcd");
    assert_eq!(s.cookie, "xyzw");
    assert_eq!(s.x_csrf_token, "to ken");
    assert_eq!(Cookies::empty().cookie, "");
}

#[test]
fn room_lookup_splits_room_code() {
    let l = room_lookup(&room("4408_MH_83_257")).unwrap();
    assert_eq!(l.room_name, "4408");
    assert_eq!(l.district_id, "MH");
    assert_eq!(l.floor_id, "257");
    assert_eq!(l.building_id, "new-83_MH");
    assert_eq!(l.area_id, "102");
    assert_eq!(room_lookup(&room("4408_MH")).err(), Some(CSError::InvalidRoomConfig));
    let mut r = room("1_2_3_4_5");
    r.elcarea = -7;
    let l = room_lookup(&r).unwrap();
    assert_eq!(l.floor_id, "4_5");
    assert_eq!(l.area_id, "-7");
}

#[test]
fn finders_take_first_match() {
    let ds = vec![
        District { district_id: "HM".into(), district_name: "a".into() },
        District { district_id: "MH".into(), district_name: "b".into() },
        District { district_id: "MH".into(), district_name: "c".into() },
    ];
    assert_eq!(find_district(&ds, "MH").unwrap().district_name, "b");
    assert_eq!(find_district(&ds, "ZB").err(), Some(CSError::RoomInfoNotFound));
    let rooms = vec![Room { room_id: "1".into(), room_name: "4408".into() }];
    assert_eq!(find_room(&rooms, "4408").unwrap().room_id, "1");
    assert_eq!(find_room(&rooms, "4409").err(), Some(CSError::RoomInfoNotFound));
}

#[test]
fn second_resolution_is_served_from_cache() {
    let mut cache = RoomInfoCache::new();
    let id = room("4408_MH_83_257");
    assert!(matches!(cache.begin_resolve(&id), Ok(ResolveStart::Fetch(_))));
    let kept = cache.remember(id.clone(), info());
    assert_eq!(kept, info());
    match cache.begin_resolve(&id) {
        Ok(ResolveStart::Cached(i)) => assert_eq!(i, info()),
        _ => panic!("expected a cached answer"),
    }
    let mut other = info();
    other.room.room_id = "other".into();
    assert_eq!(cache.remember(id.clone(), other), info());
}

#[test]
fn invalid_identity_is_not_served_from_cache() {
    let mut cache = RoomInfoCache::new();
    let mut id = room("4408_MH_83_257");
    id.elcarea = -1;
    cache.remember(id.clone(), info());
    assert!(matches!(cache.begin_resolve(&id), Ok(ResolveStart::Fetch(_))));
}

#[test]
fn plan_archive_with_name() {
    let log = log_of(&[(100, 1_000_000), (200, 2_000_000), (300, 3_000_000)]);
    let span = TimeSpan::new(Some(t(150)), Some(t(300)));
    let plan = plan_archive(&log, &span, Some("march".to_string()), &vec!["x.toml".to_string()], t(400)).unwrap();
    assert_eq!(plan.meta.archive_name, "march");
    assert_eq!(plan.meta.records_num, 2);
    assert_eq!(plan.meta.start_time, t(200));
    assert_eq!(plan.meta.end_time, t(300));
    assert_eq!(plan.data_file, "march.csv");
    assert_eq!(plan.meta_file, "march.toml");
    assert_eq!(
        String::from_utf8(plan.data.clone()).unwrap(),
        "1970-01-01T08:03:20+08:00,2\n1970-01-01T08:05:00+08:00,3\n"
    );
    assert_eq!(plan.retained.read_all().unwrap().len(), 1);
    // The log itself is unchanged.
    assert_eq!(log.read_all().unwrap().len(), 3);
}

#[test]
fn plan_archive_default_name() {
    let log = log_of(&[(1_769_236_532, 1_000_000), (1_769_322_932, 2_000_000)]);
    let plan = plan_archive(&log, &TimeSpan::all(), None, &Vec::new(), t(1_769_409_332)).unwrap();
    assert_eq!(plan.meta.archive_name, "20262401-20262501-by-20262601_143532");
    assert_eq!(plan.retained.read_all().unwrap().len(), 0);
}

#[test]
fn plan_archive_errors() {
    let log = log_of(&[(100, 1_000_000)]);
    let span = TimeSpan::new_after(t(200));
    assert_eq!(
        plan_archive(&log, &span, None, &Vec::new(), t(400)).err(),
        Some(CSError::EmptyArchive)
    );
    assert_eq!(
        plan_archive(&log, &TimeSpan::all(), Some("a/b".into()), &Vec::new(), t(400)).err(),
        Some(CSError::InvalidArchiveName)
    );
    assert_eq!(
        plan_archive(&log, &TimeSpan::all(), Some("a".into()), &vec!["a.toml".to_string()], t(400))
            .err(),
        Some(CSError::DuplicatedArchive)
    );
    let broken = RecordLog::open(b"bad\n2026-01-24T14:35:32+08:00,1\n".to_vec()).unwrap();
    assert_eq!(
        plan_archive(&broken, &TimeSpan::all(), None, &Vec::new(), t(400)).err(),
        Some(CSError::ReadRecords)
    );
}

#[test]
fn time_span_of_samples() {
    let v = vec![
        Sample { time: t(300), degree: Degree { micros: 0 } },
        Sample { time: t(100), degree: Degree { micros: 0 } },
        Sample { time: t(200), degree: Degree { micros: 0 } },
    ];
    assert_eq!(time_span(&v), Some((t(100), t(300))));
    assert_eq!(time_span(&Vec::new()), None);
}

#[test]
fn metas_sort_by_start_then_name() {
    let m = |s: i64, name: &str, e: i64, n: usize| ArchiveMeta {
        start_time: t(s),
        end_time: t(e),
        archive_name: name.to_string(),
        records_num: n,
    };
    let sorted = sort_metas(vec![m(2, "a", 5, 1), m(1, "b", 5, 1), m(1, "a", 9, 1), m(1, "a", 3, 2), m(1, "a", 3, 1)]);
    let keys: Vec<(i64, String, i64, usize)> = sorted
        .iter()
        .map(|x| (x.start_time.secs, x.archive_name.clone(), x.end_time.secs, x.records_num))
        .collect();
    assert_eq!(
        keys,
        vec![
            (1, "a".to_string(), 3, 1),
            (1, "a".to_string(), 3, 2),
            (1, "a".to_string(), 9, 1),
            (1, "b".to_string(), 5, 1),
            (2, "a".to_string(), 5, 1),
        ]
    );
}

#[test]
fn commit_protocol_success() {
    let mut c = ArchiveCommit::start();
    assert_eq!(c.next, CommitAction::WriteData);
    assert_eq!(c.step(true), CommitAction::WriteMeta);
    assert_eq!(c.step(true), CommitAction::RewriteLog);
    assert_eq!(c.step(true), CommitAction::Committed);
}

#[test]
fn commit_protocol_rollback() {
    // The log rewrite fails: the metadata, then the data are removed.
    let mut c = ArchiveCommit::start();
    c.step(true);
    c.step(true);
    assert_eq!(c.step(false), CommitAction::RemoveMeta);
    assert_eq!(c.step(true), CommitAction::RemoveData);
    assert!(!c.meta_written);
    assert_eq!(c.step(true), CommitAction::Abandoned);
    assert!(!c.data_written && !c.meta_written && !c.log_rewritten);
    assert_eq!(c.error(), CSError::WriteArchive);
    // The metadata write fails: whatever it left is removed, then the data.
    let mut d = ArchiveCommit::start();
    d.step(true);
    assert_eq!(d.step(false), CommitAction::RemoveMeta);
    assert_eq!(d.step(true), CommitAction::RemoveData);
    assert_eq!(d.step(false), CommitAction::Abandoned);
    assert!(d.data_written);
    assert_eq!(d.error(), CSError::SaveArchiveMeta);
    // A metadata file that cannot be removed is reported.
    let mut e = ArchiveCommit::start();
    e.step(true);
    e.step(true);
    e.step(false);
    assert_eq!(e.step(false), CommitAction::Inconsistent);
    // The data write fails: what it left is removed.
    let mut f = ArchiveCommit::start();
    assert_eq!(f.step(false), CommitAction::RemoveData);
    assert_eq!(f.step(true), CommitAction::Abandoned);
    assert!(!f.data_written);
    assert_eq!(f.error(), CSError::WriteArchive);
}

#[test]
fn delete_keeps_both_targets_free() {
    let archives = vec!["a.csv".to_string(), "a.toml".to_string()];
    let deleted = vec!["a.toml.20260124-1435.0".to_string(), "a.csv.20260124-1435.1".to_string()];
    let plan = plan_delete("a", &archives, &deleted, t(1_769_236_532)).unwrap();
    assert_eq!(plan.deleted_data_file, "a.csv.20260124-1435.2");
    assert_eq!(plan.deleted_meta_file, "a.toml.20260124-1435.2");
}

#[test]
fn file_names_refuse_the_controls_of_sanitize_filename() {
    // U+007F is not among the characters that sanitize-filename refuses.
    assert!(is_sanitized_filename("a\u{7f}b"));
    assert!(!is_sanitized_filename("a\u{85}b"));
    assert!(!is_sanitized_filename("a\u{1f}b"));
}

#[test]
fn polling_suppresses_repeated_login_errors() {
    let d = Degree { micros: 5 };
    let s1 = poll_step(LoopState::Normal, QueryOutcome::NotLoggedIn);
    assert_eq!(s1, PollDecision { record: None, log_error: true, next: LoopState::NotLoggedIn });
    let s2 = poll_step(s1.next, QueryOutcome::NotLoggedIn);
    assert!(!s2.log_error);
    let s3 = poll_step(s2.next, QueryOutcome::Failed);
    assert_eq!(s3, PollDecision { record: None, log_error: true, next: LoopState::NotLoggedIn });
    let s4 = poll_step(s3.next, QueryOutcome::Value(d));
    assert_eq!(s4, PollDecision { record: Some(d), log_error: false, next: LoopState::Normal });
}

#[test]
fn answers_and_replies() {
    let d = Degree { micros: 7 };
    assert_eq!(classify_answer(false, 0, true, Some(d)), QueryOutcome::NotLoggedIn);
    assert_eq!(classify_answer(true, 1, true, Some(d)), QueryOutcome::NotLoggedIn);
    assert_eq!(classify_answer(true, 0, false, Some(d)), QueryOutcome::NotLoggedIn);
    assert_eq!(classify_answer(true, 0, true, None), QueryOutcome::Failed);
    assert_eq!(classify_answer(true, 0, true, Some(d)), QueryOutcome::Value(d));
    assert_eq!(degree_reply(&RoomConfig::empty(), QueryOutcome::Value(d)), Err(CSError::RoomConfigMissing));
    assert_eq!(degree_reply(&room("1_2_3_4"), QueryOutcome::NotLoggedIn), Err(CSError::EcnuNotLogin));
    assert_eq!(degree_reply(&room("1_2_3_4"), QueryOutcome::Failed), Err(CSError::QueryDegree));
    assert_eq!(degree_reply(&room("1_2_3_4"), QueryOutcome::Value(d)), Ok(d));
}

#[test]
fn engine_switches_room_as_a_unit() {
    let mut e = Engine::new(RoomConfig::empty(), "unknown".to_string(), RecordLog::open(Vec::new()).unwrap());
    assert!(e.record(Degree { micros: 1_000_000 }, t(10)).is_some());
    let id = room("4408_MH_83_257");
    let dir = id.dir_name().unwrap();
    let log = log_of(&[(5, 3_000_000)]);
    e.switch_room(id.clone(), dir, log);
    assert_eq!(e.room_config(), &id);
    assert_eq!(e.room_dir(), "4408_MH_83_257");
    assert_eq!(e.log().last_degree(), Some(Degree { micros: 3_000_000 }));
    e.set_cookies(&Cookies { j_session_id: "a b".into(), cookie: "c".into(), x_csrf_token: "t".into() });
    assert_eq!(e.cookies().j_session_id, "ab");
    assert!(matches!(e.begin_resolve(), Ok(ResolveStart::Fetch(_))));
    e.remember_room_info(id.clone(), info());
    assert!(matches!(e.begin_resolve(), Ok(ResolveStart::Cached(_))));
    e.clear_room();
    assert!(e.room_config().is_invalid());
}

#[test]
fn archive_meta_equality_and_order() {
    let a = ArchiveMeta { start_time: t(1), end_time: t(2), archive_name: "a".into(), records_num: 1 };
    let mut b = a.clone();
    b.start_time.offset = 0;
    assert!(a == b);
    b.records_num = 2;
    assert!(a != b);
    assert!(a < b);
    assert_eq!(a.partial_cmp(&a), Some(std::cmp::Ordering::Equal));
    let c = ArchiveMeta { start_time: t(0), end_time: t(9), archive_name: "z".into(), records_num: 9 };
    assert!(c < a);
}

#[test]
fn archive_data_file_names() {
    assert_eq!(ecnu_power_usage::archive::archive_data_file("march"), Ok("march.csv".to_string()));
    assert_eq!(
        ecnu_power_usage::archive::archive_data_file("../march"),
        Err(CSError::InvalidArchiveName)
    );
}

#[test]
fn cookies_redacted_for_logs() {
    let c = Cookies {
        j_session_id: "0123456789".to_string(),
        cookie: "abc".to_string(),
        x_csrf_token: "tokentoken".to_string(),
    };
    assert_eq!(
        c.redacted(),
        "Cookies { j_session_id: 01234..., cookie: abc..., x_csrf_token: token... }"
    );
}

#[test]
fn lookup_assembles_room_info() {
    let l = room_lookup(&room("4408_MH_83_257")).unwrap();
    let i = info();
    let districts = Districts {
        areas: vec![Area { area_id: "1".into(), area_name: "old".into() }, i.area.clone()],
        districts: vec![District { district_id: "HM".into(), district_name: "x".into() }, i.district.clone()],
        buildings: Vec::new(),
        floors: Vec::new(),
        rooms: Vec::new(),
    };
    let buildings = Buildings { buildings: vec![i.building.clone()] };
    let floors = Floors { floors: vec![Floor { floor_id: "256".into(), floor_name: "3".into() }, i.floor.clone()] };
    let rooms = Rooms { rooms: vec![i.room.clone()] };
    assert_eq!(l.assemble(&districts, &buildings, &floors, &rooms), Ok(i.clone()));
    let no_rooms = Rooms { rooms: Vec::new() };
    assert_eq!(l.assemble(&districts, &buildings, &floors, &no_rooms), Err(CSError::RoomInfoNotFound));
    let no_areas = Districts { areas: Vec::new(), ..districts.clone() };
    assert_eq!(l.assemble(&no_areas, &buildings, &floors, &rooms), Err(CSError::RoomInfoNotFound));
}
