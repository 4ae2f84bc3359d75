use canva_indexer::api::{admit_public_key, credit_status, Admission, CreditStatus};
use canva_indexer::config::CanvasConfig;
use canva_indexer::db::{
    add_user, count_recent_placements, get_canvas_dimensions, get_canvas_state, get_cell,
    get_fill_stats, get_resize_history, get_user_last_placement, get_users_by_homeserver,
    insert_pixel, open, pixel_event_exists, resize_canvas, set_initial_size, update_user_cursor,
    user_exists, Db,
};
use canva_indexer::error::IndexerError;
use canva_indexer::pixel::{encode_timestamp_id, CanvaPixel};
use canva_indexer::sse::{parse_sse_response, SseEventParsed};
use canva_indexer::watcher::{
    check_resize, commit_fetched_pixel, next_canvas_size, pixel_event_target, prepare_pixel_event,
    process_pixel_event, process_stream, process_stream_event, PixelBlob, SseEvent,
};

const T0: i64 = 1_727_740_800_000_000;

fn cfg(max_credits: u32, secs: u64) -> CanvasConfig {
    CanvasConfig { initial_size: 16, max_credits, credit_regen_seconds: secs }
}

fn id_at(t: i64) -> String {
    encode_timestamp_id(t as u64)
}

fn place(db: &mut Db, c: &CanvasConfig, user: &str, t: i64, x: u32, y: u32, color: u8) -> Result<Option<SseEvent>, IndexerError> {
    let blob = PixelBlob::Pixel(CanvaPixel { x, y, color });
    process_pixel_event(db, c, user, &id_at(t), &blob, t + 1)
}

#[test]
fn scenario_happy_path() {
    let mut db = open(16, 16);
    let c = cfg(60, 60);
    let id = id_at(T0 + 1);
    let r = process_pixel_event(&mut db, &c, "alice", &id, &PixelBlob::Pixel(CanvaPixel { x: 5, y: 7, color: 11 }), T0 + 10);
    match r {
        Ok(Some(SseEvent::Pixel(s))) => {
            assert_eq!((s.x, s.y, s.color, s.placed_at), (5, 7, 11, T0 + 1));
            assert_eq!(s.user_pk, "alice");
        }
        other => panic!("unexpected {:?}", other),
    }
    let cell = get_cell(&db, 5, 7).unwrap();
    assert_eq!(cell.color, 11);
    assert_eq!(cell.user_pk, "alice");
    assert_eq!(cell.first_user_pk, "alice");
    assert!(!cell.was_overwritten);
    assert_eq!(get_fill_stats(&db), (1, 0));
    assert!(pixel_event_exists(&db, &id));
}

#[test]
fn scenario_overwrite() {
    let mut db = open(16, 16);
    let c = cfg(60, 60);
    assert!(place(&mut db, &c, "alice", T0 + 1, 5, 7, 11).unwrap().is_some());
    assert!(place(&mut db, &c, "bob", T0 + 2, 5, 7, 3).unwrap().is_some());
    let cell = get_cell(&db, 5, 7).unwrap();
    assert_eq!(cell.color, 3);
    assert_eq!(cell.user_pk, "bob");
    assert_eq!(cell.first_user_pk, "alice");
    assert!(cell.was_overwritten);
    assert_eq!(get_fill_stats(&db), (1, 1));
}

#[test]
fn scenario_credit_exhaustion() {
    let mut db = open(16, 16);
    let c = cfg(3, 60);
    let t = T0 + 1_000;
    for k in 0..3 {
        assert!(place(&mut db, &c, "alice", t + k, k as u32, 0, 1).unwrap().is_some());
    }
    assert_eq!(place(&mut db, &c, "alice", t + 3, 3, 0, 1), Err(IndexerError::NoCredits));
    // another author is unaffected
    assert!(place(&mut db, &c, "bob", t + 3, 3, 0, 1).unwrap().is_some());
    assert!(place(&mut db, &c, "alice", t + 60_000_000 + 1, 4, 0, 1).unwrap().is_some());
}

#[test]
fn scenario_resize() {
    let mut db = open(16, 16);
    let c = cfg(100_000, 60);
    let mut t = T0 + 1;
    for y in 0..16u32 {
        for x in 0..16u32 {
            assert!(place(&mut db, &c, "alice", t, x, y, 1).unwrap().is_some());
            t += 1;
        }
    }
    assert!(check_resize(&mut db, t).is_none());
    for k in 0..128u32 {
        assert!(place(&mut db, &c, "bob", t, k % 16, k / 16, 2).unwrap().is_some());
        t += 1;
    }
    assert_eq!(get_fill_stats(&db), (256, 128));
    let t_r = t;
    match check_resize(&mut db, t_r) {
        Some(SseEvent::Resize { old_width, old_height, new_width, new_height }) => {
            assert_eq!((old_width, old_height, new_width, new_height), (16, 16, 32, 16));
        }
        other => panic!("unexpected {:?}", other),
    }
    assert_eq!(get_canvas_dimensions(&db), (32, 16));
    assert!(check_resize(&mut db, t_r + 1).is_none());
    t += 1;
    for y in 0..16u32 {
        for x in 16..32u32 {
            assert!(place(&mut db, &c, "alice", t, x, y, 1).unwrap().is_some());
            t += 1;
        }
    }
    for k in 0..256u32 {
        assert!(place(&mut db, &c, "carol", t, k % 32, k / 32 + 8, 4).unwrap().is_some());
        t += 1;
    }
    assert!(get_fill_stats(&db).1 >= 256);
    assert!(check_resize(&mut db, t).is_some());
    assert_eq!(get_canvas_dimensions(&db), (32, 32));
    assert_eq!(get_resize_history(&db), vec![(16, 16, 0), (32, 16, t_r), (32, 32, t)]);
}

#[test]
fn resize_rule_values() {
    assert_eq!(next_canvas_size(16, 16, 256, 128), Some((32, 16)));
    assert_eq!(next_canvas_size(32, 16, 512, 256), Some((32, 32)));
    assert_eq!(next_canvas_size(16, 16, 255, 200), None);
    assert_eq!(next_canvas_size(16, 16, 256, 127), None);
    assert_eq!(next_canvas_size(1 << 31, 1 << 31, u64::MAX, u64::MAX), None);
}

#[test]
fn resize_needs_clock_past_last_record() {
    let mut db = open(1, 1);
    let c = cfg(10, 60);
    assert!(place(&mut db, &c, "alice", T0 + 5, 0, 0, 1).unwrap().is_some());
    assert!(place(&mut db, &c, "bob", T0 + 6, 0, 0, 1).unwrap().is_some());
    assert!(check_resize(&mut db, 0).is_none());
    assert!(check_resize(&mut db, T0).is_some());
    assert_eq!(get_canvas_dimensions(&db), (2, 1));
}

#[test]
fn scenario_duplicate_delivery() {
    let mut db = open(16, 16);
    let c = cfg(60, 60);
    add_user(&mut db, "alice", "hs1", 1_700_000_000);
    let id = id_at(T0 + 1);
    let block = format!("event: PUT\ndata: pubky://alice/pub/pubky-canva/pixels/{}\ndata: cursor: {}\n\n", id, "5");
    let block2 = format!("event: PUT\ndata: pubky://alice/pub/pubky-canva/pixels/{}\ndata: cursor: {}\n\n", id, "6");
    let text = format!("{}{}", block, block2);
    let evs = parse_sse_response(&text);
    assert_eq!(evs.len(), 2);
    let users = vec![("alice".to_string(), String::new())];
    let blob = PixelBlob::Pixel(CanvaPixel { x: 1, y: 2, color: 3 });
    let out = process_stream(&mut db, &c, &users, &evs, &[blob, blob], T0 + 10);
    assert_eq!(out.len(), 1);
    match &out[0] {
        SseEvent::Pixel(s) => {
            assert_eq!((s.x, s.y, s.color, s.placed_at), (1, 2, 3, T0 + 1));
            assert_eq!(s.user_pk, "alice");
        }
        other => panic!("unexpected {:?}", other),
    }
    assert_eq!(get_fill_stats(&db), (1, 0));
    let groups = get_users_by_homeserver(&db);
    assert_eq!(groups, vec![("hs1".to_string(), vec![("alice".to_string(), "6".to_string())])]);
}

#[test]
fn replay_of_one_event_changes_nothing() {
    let mut db = open(16, 16);
    let c = cfg(60, 60);
    add_user(&mut db, "alice", "hs1", 1_700_000_000);
    let users = vec![("alice".to_string(), String::new())];
    let ev = SseEventParsed {
        event_type: "PUT".to_string(),
        uri: format!("pubky://alice/pub/pubky-canva/pixels/{}", id_at(T0 + 1)),
        cursor: "1".to_string(),
    };
    let blob = PixelBlob::Pixel(CanvaPixel { x: 1, y: 1, color: 9 });
    let r1 = process_stream_event(&mut db, &c, &users, &ev, &blob, T0 + 10);
    assert!(matches!(r1, Some(Ok(Some(_)))));
    let r2 = process_stream_event(&mut db, &c, &users, &ev, &blob, T0 + 10);
    assert!(matches!(r2, Some(Ok(None))));
    assert_eq!(get_fill_stats(&db), (1, 0));
    assert_eq!(get_canvas_state(&db).len(), 1);
    assert_eq!(get_cell(&db, 1, 1).unwrap().color, 9);
}

#[test]
fn cursor_follows_last_event_of_user() {
    let mut db = open(16, 16);
    let c = cfg(60, 60);
    add_user(&mut db, "alice", "hs1", 1_700_000_000);
    add_user(&mut db, "bob", "hs1", 1_700_000_000);
    add_user(&mut db, "carol", "hs2", 1_700_000_000);
    let text = format!(
        "event: PUT\ndata: pubky://alice/pub/pubky-canva/pixels/{}\ndata: cursor: 10\n\n\
         event: PUT\ndata: pubky://bob/pub/pubky-canva/pixels/BAD\ndata: cursor: 11\n\n\
         event: DEL\ndata: pubky://alice/pub/pubky-canva/pixels/{}\ndata: cursor: 12\n\n\
         event: PUT\ndata: pubky://alice/pub/pubky-canva/pixels/{}\n\n",
        id_at(T0 + 1),
        id_at(T0 + 1),
        id_at(T0 + 2)
    );
    let evs = parse_sse_response(&text);
    assert_eq!(evs.len(), 4);
    let users = vec![("alice".to_string(), String::new()), ("bob".to_string(), String::new())];
    let blob = PixelBlob::Pixel(CanvaPixel { x: 1, y: 1, color: 9 });
    let out = process_stream(&mut db, &c, &users, &evs, &[blob; 4], T0 + 10);
    assert_eq!(out.len(), 2);
    let groups = get_users_by_homeserver(&db);
    assert_eq!(
        groups,
        vec![
            ("hs1".to_string(), vec![("alice".to_string(), "10".to_string()), ("bob".to_string(), "11".to_string())]),
            ("hs2".to_string(), vec![("carol".to_string(), String::new())]),
        ]
    );
}

#[test]
fn untracked_and_non_pixel_events_are_ignored() {
    let users = vec![("alice".to_string(), String::new())];
    let ev = SseEventParsed {
        event_type: "PUT".to_string(),
        uri: "pubky://mallory/pub/pubky-canva/pixels/X".to_string(),
        cursor: "3".to_string(),
    };
    assert_eq!(pixel_event_target(&ev, &users), None);
    let ev = SseEventParsed { event_type: "DEL".to_string(), uri: "pubky://alice/pub/pubky-canva/pixels/X".to_string(), cursor: String::new() };
    assert_eq!(pixel_event_target(&ev, &users), None);
    let ev = SseEventParsed { event_type: "PUT".to_string(), uri: "pubky://alice/pub/pubky-canva/pixels/X".to_string(), cursor: String::new() };
    assert_eq!(pixel_event_target(&ev, &users), Some(("alice".to_string(), "X".to_string())));
}

#[test]
fn pipeline_errors() {
    let mut db = open(16, 16);
    let c = cfg(60, 60);
    let px = PixelBlob::Pixel(CanvaPixel { x: 1, y: 1, color: 1 });
    assert_eq!(process_pixel_event(&mut db, &c, "a", "SHORT", &px, T0), Err(IndexerError::DecodeError));
    assert_eq!(process_pixel_event(&mut db, &c, "a", &id_at(T0 - 1), &px, T0), Err(IndexerError::StaleOrFutureTimestamp));
    assert_eq!(process_pixel_event(&mut db, &c, "a", &id_at(T0 + 200_000_000), &px, T0), Err(IndexerError::StaleOrFutureTimestamp));
    assert_eq!(process_pixel_event(&mut db, &c, "a", &id_at(T0 + 1), &PixelBlob::FetchFailed, T0), Err(IndexerError::FetchFailed));
    assert_eq!(process_pixel_event(&mut db, &c, "a", &id_at(T0 + 1), &PixelBlob::Malformed, T0), Err(IndexerError::InvalidPayload));
    let bad = PixelBlob::Pixel(CanvaPixel { x: 1, y: 1, color: 200 });
    assert_eq!(process_pixel_event(&mut db, &c, "a", &id_at(T0 + 1), &bad, T0), Err(IndexerError::InvalidColor));
    let out = PixelBlob::Pixel(CanvaPixel { x: 16, y: 1, color: 2 });
    assert_eq!(process_pixel_event(&mut db, &c, "a", &id_at(T0 + 1), &out, T0), Err(IndexerError::OutOfBounds));
    assert_eq!(get_fill_stats(&db), (0, 0));
    assert!(!pixel_event_exists(&db, &id_at(T0 + 1)));
}

#[test]
fn prepare_then_commit() {
    let mut db = open(16, 16);
    let c = cfg(60, 60);
    let id = id_at(T0 + 7);
    assert_eq!(prepare_pixel_event(&db, &id, T0), Ok(Some(T0 + 7)));
    let s = commit_fetched_pixel(&mut db, &c, "alice", &id, T0 + 7, &PixelBlob::Pixel(CanvaPixel { x: 2, y: 3, color: 4 })).unwrap();
    assert_eq!((s.x, s.y, s.color, s.placed_at), (2, 3, 4, T0 + 7));
    assert_eq!(prepare_pixel_event(&db, &id, T0), Ok(None));
}

#[test]
fn store_insert_reports() {
    let mut db = open(16, 16);
    assert_eq!(insert_pixel(&mut db, "a1", "alice", 1, 1, 1, 10), Ok((true, false)));
    assert_eq!(insert_pixel(&mut db, "a2", "alice", 1, 1, 2, 11), Ok((false, false)));
    assert_eq!(insert_pixel(&mut db, "b1", "bob", 1, 1, 3, 12), Ok((false, true)));
    assert_eq!(insert_pixel(&mut db, "b2", "bob", 1, 1, 4, 13), Ok((false, false)));
    // the first author writing again keeps the flag
    assert_eq!(insert_pixel(&mut db, "a3", "alice", 1, 1, 5, 14), Ok((false, false)));
    assert_eq!(insert_pixel(&mut db, "a3", "alice", 2, 2, 5, 14), Err(IndexerError::StoreUnavailable));
    let cell = get_cell(&db, 1, 1).unwrap();
    assert!(cell.was_overwritten);
    assert_eq!(cell.first_user_pk, "alice");
    assert_eq!(cell.color, 5);
    assert!(get_cell(&db, 2, 2).is_none());
    assert_eq!(get_fill_stats(&db), (1, 1));
    assert_eq!(count_recent_placements(&db, "alice", 14, 4), 2);
    assert_eq!(count_recent_placements(&db, "alice", 14, 5), 3);
    assert_eq!(count_recent_placements(&db, "bob", 12, 0), 0);
    assert_eq!(get_user_last_placement(&db, "alice"), Some(14));
    assert_eq!(get_user_last_placement(&db, "nobody"), None);
}

#[test]
fn store_users_and_sizes() {
    let mut db = open(16, 16);
    set_initial_size(&mut db, 8);
    assert_eq!(get_canvas_dimensions(&db), (8, 8));
    resize_canvas(&mut db, 16, 8, 100);
    set_initial_size(&mut db, 4);
    assert_eq!(get_resize_history(&db), vec![(8, 8, 0), (16, 8, 100)]);
    assert!(!user_exists(&db, "alice"));
    add_user(&mut db, "alice", "hs", 1_700_000_000);
    add_user(&mut db, "alice", "other", 1_700_000_000);
    assert!(user_exists(&db, "alice"));
    update_user_cursor(&mut db, "alice", "77");
    assert_eq!(get_users_by_homeserver(&db), vec![("hs".to_string(), vec![("alice".to_string(), "77".to_string())])]);
}

#[test]
fn admission() {
    let mut db = open(16, 16);
    assert_eq!(admit_public_key(&mut db, "pk", None, 1_700_000_000), Err(IndexerError::HomeserverNotFound));
    assert_eq!(admit_public_key(&mut db, "pk", Some("https://hs9/"), 1_700_000_000), Ok(Admission::Created));
    assert_eq!(admit_public_key(&mut db, "pk", None, 1_700_000_000), Ok(Admission::AlreadyPresent));
    assert_eq!(get_users_by_homeserver(&db), vec![("hs9".to_string(), vec![("pk".to_string(), String::new())])]);
}

#[test]
fn credits() {
    let mut db = open(16, 16);
    let c = cfg(3, 60);
    assert_eq!(credit_status(&db, &c, "alice", T0), CreditStatus { credits: 3, max_credits: 3, next_credit_in_seconds: None });
    assert!(place(&mut db, &c, "alice", T0 + 1, 0, 0, 1).unwrap().is_some());
    assert!(place(&mut db, &c, "alice", T0 + 20_000_000, 1, 0, 1).unwrap().is_some());
    let s = credit_status(&db, &c, "alice", T0 + 30_000_000);
    assert_eq!(s, CreditStatus { credits: 1, max_credits: 3, next_credit_in_seconds: Some(30) });
    let s = credit_status(&db, &c, "alice", T0 + 70_000_000);
    assert_eq!(s, CreditStatus { credits: 2, max_credits: 3, next_credit_in_seconds: Some(10) });
}

#[test]
fn pixel_info_history() {
    let mut db = open(16, 16);
    assert!(canva_indexer::db::get_pixel_info(&db, 1, 1).is_none());
    let times = [5i64, 3, 9, 1, 7, 12, 2, 11, 4, 10, 8, 6];
    for (k, t) in times.iter().enumerate() {
        let id = format!("e{}", k);
        insert_pixel(&mut db, &id, "alice", 1, 1, (k % 16) as u8, *t).unwrap();
    }
    insert_pixel(&mut db, "other", "bob", 2, 1, 1, 100).unwrap();
    let info = canva_indexer::db::get_pixel_info(&db, 1, 1).unwrap();
    assert_eq!(info.current.placed_at, 6);
    assert_eq!(info.current.color, 11);
    let got: Vec<i64> = info.history.iter().map(|h| h.placed_at).collect();
    assert_eq!(got, vec![12, 11, 10, 9, 8, 7, 6, 5, 4, 3]);
    assert_eq!(info.history[0].id, "e5");
    let small = canva_indexer::db::get_pixel_info(&db, 2, 1).unwrap();
    assert_eq!(small.history.len(), 1);
    assert_eq!(small.history[0].user_pk, "bob");
}

#[test]
fn credit_window_is_evaluated_at_placement_time() {
    let mut db = open(16, 16);
    let c = cfg(1, 60);
    // a later placement committed first does not count against an earlier one
    assert!(place(&mut db, &c, "alice", T0 + 10, 0, 0, 1).unwrap().is_some());
    assert!(place(&mut db, &c, "alice", T0 + 5, 1, 0, 1).unwrap().is_some());
    assert_eq!(place(&mut db, &c, "alice", T0 + 11, 2, 0, 1), Err(IndexerError::NoCredits));
}

#[test]
fn anti_backdating_uses_width_and_height() {
    let hist = vec![(16u32, 16u32, 0i64), (32, 16, 100), (32, 32, 200)];
    let p = CanvaPixel { x: 5, y: 20, color: 1 };
    assert_eq!(p.validate(32, 32, &hist, 100), Err(IndexerError::PreExpansionPlacement));
    assert_eq!(p.validate(32, 32, &hist, 199), Err(IndexerError::PreExpansionPlacement));
    assert_eq!(p.validate(32, 32, &hist, 200), Ok(()));
    let q = CanvaPixel { x: 20, y: 5, color: 1 };
    assert_eq!(q.validate(32, 32, &hist, 100), Ok(()));
}

#[test]
fn pipeline_refuses_backdated_placement() {
    let mut db = open(16, 16);
    let c = cfg(60, 60);
    let t1 = T0 + 1_000;
    let t2 = T0 + 2_000;
    resize_canvas(&mut db, 32, 16, t1);
    resize_canvas(&mut db, 32, 32, t2);
    assert_eq!(place(&mut db, &c, "alice", t1, 5, 20, 1), Err(IndexerError::PreExpansionPlacement));
    assert!(place(&mut db, &c, "alice", t2, 5, 20, 1).unwrap().is_some());
}

#[test]
fn users_keep_creation_time() {
    let mut db = open(16, 16);
    add_user(&mut db, "alice", "hs", 42);
    add_user(&mut db, "alice", "hs", 99);
    let rows = canva_indexer::db::get_user(&db, "alice").unwrap();
    assert_eq!(rows.created_at, 42);
    assert_eq!(rows.homeserver_pk, "hs");
}
