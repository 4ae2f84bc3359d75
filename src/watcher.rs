use vstd::prelude::*;
use crate::config::{regen_window, CanvasConfig};
use crate::db::{
    count_in_window, count_recent_placements, get_canvas_dimensions, get_resize_history,
    insert_pixel, pixel_event_exists, update_user_cursor, count_overwritten, get_fill_stats,
    may_follow, resize_canvas, Db, DbModel, EventModel, PixelState,
    PixelStateModel, UserModel, cell_of,
};
use crate::sse::{events_view, parse_pixel_uri, pixel_uri_parts, SseEventParsed, SseModel};
use crate::text::{push_str_chars, str_equal, string_of};
use crate::error::IndexerError;
use crate::pixel::{
    first_reach_time, reaches, check_timestamp, id_timestamp, is_valid_id, parse_timestamp_id, placement_verdict,
    timestamp_in_window, CanvaPixel,
};

verus! {

/// A change that subscribers are told of.
#[derive(Debug, Clone, PartialEq, Eq)]
pub enum SseEvent {
    Pixel(PixelState),
    Resize { old_width: u32, old_height: u32, new_width: u32, new_height: u32 },
}

/// What fetching a pixel blob from its homeserver gave.
#[derive(PartialEq, Eq, Structural, Debug, Clone, Copy)]
pub enum PixelBlob {
    /// A well-formed `{x, y, color}` document.
    Pixel(CanvaPixel),
    /// The homeserver answered with an error status or not at all.
    FetchFailed,
    /// The body is not a pixel document.
    Malformed,
}

/// The first steps for an event ID: a committed ID is skipped (`Ok(None)`);
/// otherwise the ID must decode to a timestamp inside the window, which is
/// returned for the rest of the pipeline.
pub open spec fn admission_verdict(db: DbModel, id: Seq<char>, now: i64) -> Result<
    Option<i64>,
    IndexerError,
> {
    if db.has_event(id) {
        Ok(None)
    } else if !is_valid_id(id) {
        Err(IndexerError::DecodeError)
    } else if !timestamp_in_window(id_timestamp(id), now) {
        Err(IndexerError::StaleOrFutureTimestamp)
    } else {
        Ok(Some(id_timestamp(id)))
    }
}

/// The remaining steps once the blob is known: payload, placement rules, credits.
pub open spec fn commit_verdict(
    db: DbModel,
    cfg: CanvasConfig,
    user: Seq<char>,
    timestamp: i64,
    blob: PixelBlob,
) -> Result<CanvaPixel, IndexerError> {
    match blob {
        PixelBlob::FetchFailed => Err(IndexerError::FetchFailed),
        PixelBlob::Malformed => Err(IndexerError::InvalidPayload),
        PixelBlob::Pixel(p) => {
            let (w, h) = db.dimensions();
            match placement_verdict(p, w, h, db.resizes, timestamp) {
                Err(e) => Err(e),
                Ok(_) => if count_in_window(
                    db.events,
                    user,
                    timestamp as int,
                    regen_window(cfg) as int,
                ) >= cfg.max_credits {
                    Err(IndexerError::NoCredits)
                } else {
                    Ok(p)
                },
            }
        },
    }
}

/// The outcome of the whole pipeline for one event: `Ok(None)` for a replay,
/// `Ok(Some(p))` where `p` is committed.
pub open spec fn pipeline_verdict(
    db: DbModel,
    cfg: CanvasConfig,
    user: Seq<char>,
    id: Seq<char>,
    blob: PixelBlob,
    now: i64,
) -> Result<Option<CanvaPixel>, IndexerError> {
    match admission_verdict(db, id, now) {
        Err(e) => Err(e),
        Ok(None) => Ok(None),
        Ok(Some(t)) => match commit_verdict(db, cfg, user, t, blob) {
            Err(e) => Err(e),
            Ok(p) => Ok(Some(p)),
        },
    }
}

pub open spec fn committed_event(id: Seq<char>, user: Seq<char>, p: CanvaPixel, t: i64) -> EventModel {
    EventModel { id, user, x: p.x, y: p.y, color: p.color, placed_at: t }
}

/// The commit log after the pipeline has run on one event.
pub open spec fn pipeline_events(
    db: DbModel,
    cfg: CanvasConfig,
    user: Seq<char>,
    id: Seq<char>,
    blob: PixelBlob,
    now: i64,
) -> Seq<EventModel> {
    match pipeline_verdict(db, cfg, user, id, blob, now) {
        Ok(Some(p)) => db.events.push(committed_event(id, user, p, id_timestamp(id))),
        _ => db.events,
    }
}

/// What subscribers are told of a committed event.
pub open spec fn state_of_event(e: EventModel) -> PixelStateModel {
    PixelStateModel { x: e.x, y: e.y, color: e.color, user: e.user, placed_at: e.placed_at }
}

pub open spec fn placed_state(p: CanvaPixel, user: Seq<char>, t: i64) -> PixelStateModel {
    PixelStateModel { x: p.x, y: p.y, color: p.color, user, placed_at: t }
}

/// Dedupe, decode and time-check an event ID before its blob is fetched.
pub fn prepare_pixel_event(db: &Db, pixel_id: &str, now: i64) -> (r: Result<Option<i64>, IndexerError>)
    ensures
        r == admission_verdict(db@, pixel_id@, now),
{
    if pixel_event_exists(db, pixel_id) {
        return Ok(None);
    }
    let timestamp = match parse_timestamp_id(pixel_id) {
        Ok(t) => t,
        Err(e) => return Err(e),
    };
    match check_timestamp(timestamp, now) {
        Ok(()) => Ok(Some(timestamp)),
        Err(e) => Err(e),
    }
}

/// Validates a fetched pixel, checks the author's credits and commits it.
pub fn commit_fetched_pixel(
    db: &mut Db,
    config: &CanvasConfig,
    user_pk: &str,
    pixel_id: &str,
    timestamp: i64,
    blob: &PixelBlob,
) -> (r: Result<PixelState, IndexerError>)
    requires
        old(db)@.wf(),
        !old(db)@.has_event(pixel_id@),
    ensures
        final(db)@.wf(),
        final(db)@.users == old(db)@.users,
        final(db)@.resizes == old(db)@.resizes,
        match commit_verdict(old(db)@, *config, user_pk@, timestamp, *blob) {
            Err(e) => r == Err::<PixelState, IndexerError>(e) && final(db)@ == old(db)@,
            Ok(p) => {
                &&& r is Ok
                &&& r->Ok_0@ == placed_state(p, user_pk@, timestamp)
                &&& final(db)@.events == old(db)@.events.push(
                    committed_event(pixel_id@, user_pk@, p, timestamp),
                )
            },
        },
{
    let pixel = match blob {
        PixelBlob::FetchFailed => return Err(IndexerError::FetchFailed),
        PixelBlob::Malformed => return Err(IndexerError::InvalidPayload),
        PixelBlob::Pixel(p) => *p,
    };
    let (w, h) = get_canvas_dimensions(db);
    let history = get_resize_history(db);
    match pixel.validate(w, h, history.as_slice(), timestamp) {
        Ok(()) => {},
        Err(e) => return Err(e),
    }
    let recent = count_recent_placements(db, user_pk, timestamp, config.regen_us());
    if recent >= config.max_credits as u64 {
        return Err(IndexerError::NoCredits);
    }
    match insert_pixel(db, pixel_id, user_pk, pixel.x, pixel.y, pixel.color, timestamp) {
        Ok(_) => {},
        Err(e) => return Err(e),
    }
    Ok(
        PixelState {
            x: pixel.x,
            y: pixel.y,
            color: pixel.color,
            user_pk: user_pk.to_owned(),
            placed_at: timestamp,
        },
    )
}

/// Runs the ingestion pipeline on one pixel event whose blob fetch gave `blob`.
/// A replayed ID is skipped with `Ok(None)`; a committed placement is returned
/// as the event to broadcast.
pub fn process_pixel_event(
    db: &mut Db,
    config: &CanvasConfig,
    user_pk: &str,
    pixel_id: &str,
    blob: &PixelBlob,
    now: i64,
) -> (r: Result<Option<SseEvent>, IndexerError>)
    requires
        old(db)@.wf(),
    ensures
        final(db)@.wf(),
        final(db)@.users == old(db)@.users,
        final(db)@.resizes == old(db)@.resizes,
        final(db)@.events == pipeline_events(old(db)@, *config, user_pk@, pixel_id@, *blob, now),
        match pipeline_verdict(old(db)@, *config, user_pk@, pixel_id@, *blob, now) {
            Err(e) => r == Err::<Option<SseEvent>, IndexerError>(e) && final(db)@ == old(db)@,
            Ok(None) => r is Ok && r->Ok_0 is None && final(db)@ == old(db)@,
            Ok(Some(p)) => match r {
                Ok(Some(SseEvent::Pixel(s))) => s@ == placed_state(p, user_pk@, id_timestamp(pixel_id@)),
                _ => false,
            },
        },
{
    let timestamp = match prepare_pixel_event(db, pixel_id, now) {
        Err(e) => return Err(e),
        Ok(None) => return Ok(None),
        Ok(Some(t)) => t,
    };
    match commit_fetched_pixel(db, config, user_pk, pixel_id, timestamp, blob) {
        Ok(s) => Ok(Some(SseEvent::Pixel(s))),
        Err(e) => Err(e),
    }
}

} // verus!

verus! {

/// Whether `user` is among the watched `(user_pk, cursor)` pairs.
pub open spec fn is_watched(watched: Seq<(String, String)>, user: Seq<char>) -> bool {
    exists|i: int| 0 <= i < watched.len() && #[trigger] watched[i].0@ == user
}

/// The author and pixel ID of a stream event that the pipeline must handle:
/// a `PUT` of a pixel URI by a watched user.
pub open spec fn stream_target(ev: SseModel, watched: Seq<(String, String)>) -> Option<
    (Seq<char>, Seq<char>),
> {
    if ev.event_type != "PUT"@ {
        None
    } else {
        match pixel_uri_parts(ev.uri) {
            None => None,
            Some((user, id)) => if is_watched(watched, user) {
                Some((user, id))
            } else {
                None
            },
        }
    }
}

/// The users' rows after `key` has advanced to `cursor`.
pub open spec fn with_cursor(users: Seq<UserModel>, key: Seq<char>, cursor: Seq<char>) -> Seq<
    UserModel,
> {
    users.map_values(
        |u: UserModel|
            if u.key == key {
                UserModel { cursor, ..u }
            } else {
                u
            },
    )
}

/// The users' rows after a stream event: the author's cursor advances to the
/// event's cursor when that is non-empty.
pub open spec fn users_after_event(
    users: Seq<UserModel>,
    ev: SseModel,
    watched: Seq<(String, String)>,
) -> Seq<UserModel> {
    match stream_target(ev, watched) {
        Some((user, _)) => if ev.cursor.len() > 0 {
            with_cursor(users, user, ev.cursor)
        } else {
            users
        },
        None => users,
    }
}

/// The commit log after a stream event.
pub open spec fn events_after_event(
    db: DbModel,
    cfg: CanvasConfig,
    ev: SseModel,
    watched: Seq<(String, String)>,
    blob: PixelBlob,
    now: i64,
) -> Seq<EventModel> {
    match stream_target(ev, watched) {
        Some((user, id)) => pipeline_events(db, cfg, user, id, blob, now),
        None => db.events,
    }
}

/// The author and pixel ID of a stream event that the pipeline must handle.
pub fn pixel_event_target(event: &SseEventParsed, users: &[(String, String)]) -> (r: Option<
    (String, String),
>)
    ensures
        match r {
            None => stream_target(event@, users@) is None,
            Some((u, i)) => stream_target(event@, users@) == Some((u@, i@)),
        },
{
    if !str_equal(event.event_type.as_str(), "PUT") {
        return None;
    }
    let (user, id) = match parse_pixel_uri(event.uri.as_str()) {
        None => return None,
        Some(parts) => parts,
    };
    let user = user.to_owned();
    let mut k: usize = 0;
    while k < users.len()
        invariant
            k <= users@.len(),
            forall|j: int| 0 <= j < k ==> users@[j].0@ != user@,
            event.event_type@ == "PUT"@,
            pixel_uri_parts(event.uri@) == Some((user@, id@)),
        decreases users.len() - k,
    {
        if users[k].0 == user {
            assert(users@[k as int].0@ == user@);
            assert(is_watched(users@, user@));
            let id = id.to_owned();
            return Some((user, id));
        }
        k = k + 1;
    }
    None
}

/// Handles one event of a homeserver's stream: a watched pixel `PUT` runs
/// through the pipeline with the fetched `blob`, then its author's cursor
/// advances to the event's cursor when that is non-empty, whatever the
/// pipeline decided. Other events change nothing and give `None`.
pub fn process_stream_event(
    db: &mut Db,
    config: &CanvasConfig,
    users: &[(String, String)],
    event: &SseEventParsed,
    blob: &PixelBlob,
    now: i64,
) -> (r: Option<Result<Option<SseEvent>, IndexerError>>)
    requires
        old(db)@.wf(),
    ensures
        final(db)@.wf(),
        final(db)@.resizes == old(db)@.resizes,
        final(db)@.events == events_after_event(old(db)@, *config, event@, users@, *blob, now),
        final(db)@.users == users_after_event(old(db)@.users, event@, users@),
        r is None <==> stream_target(event@, users@) is None,
        match r {
            Some(Ok(Some(ev))) => {
                &&& final(db)@.events.len() == old(db)@.events.len() + 1
                &&& ev matches SseEvent::Pixel(s) && s@ == state_of_event(final(db)@.events.last())
            },
            _ => final(db)@.events == old(db)@.events,
        },
        match stream_target(event@, users@) {
            Some((user, id)) => match pipeline_verdict(old(db)@, *config, user, id, *blob, now) {
                Err(e) => r == Some(Err::<Option<SseEvent>, IndexerError>(e)),
                Ok(None) => r is Some && r->0 is Ok && r->0->Ok_0 is None,
                Ok(Some(p)) => match r {
                    Some(Ok(Some(SseEvent::Pixel(s)))) => s@ == placed_state(p, user, id_timestamp(id)),
                    _ => false,
                },
            },
            None => true,
        },
{
    let (user, id) = match pixel_event_target(event, users) {
        None => return None,
        Some(t) => t,
    };
    let r = process_pixel_event(db, config, user.as_str(), id.as_str(), blob, now);
    if !event.cursor.as_str().is_empty() {
        let ghost before = db@.users;
        update_user_cursor(db, user.as_str(), event.cursor.as_str());
        assert(db@.users =~= with_cursor(before, user@, event.cursor@));
    }
    Some(r)
}

/// The commit log and the users' rows after a stream has been handled in order,
/// `blobs[i]` being what fetching the blob of event `i` gave.
pub open spec fn stream_after(
    db: DbModel,
    cfg: CanvasConfig,
    watched: Seq<(String, String)>,
    evs: Seq<SseModel>,
    blobs: Seq<PixelBlob>,
    now: i64,
) -> DbModel
    decreases evs.len(),
{
    if evs.len() == 0 || blobs.len() != evs.len() {
        db
    } else {
        let prev = stream_after(db, cfg, watched, evs.drop_last(), blobs.drop_last(), now);
        DbModel {
            events: events_after_event(prev, cfg, evs.last(), watched, blobs.last(), now),
            users: users_after_event(prev.users, evs.last(), watched),
            ..prev
        }
    }
}

/// Handles a whole parsed stream in order and returns the events to broadcast.
pub fn process_stream(
    db: &mut Db,
    config: &CanvasConfig,
    users: &[(String, String)],
    events: &[SseEventParsed],
    blobs: &[PixelBlob],
    now: i64,
) -> (r: Vec<SseEvent>)
    requires
        old(db)@.wf(),
        blobs@.len() == events@.len(),
    ensures
        final(db)@.wf(),
        final(db)@.resizes == old(db)@.resizes,
        final(db)@.events == stream_after(old(db)@, *config, users@, events_view(events@), blobs@, now).events,
        final(db)@.users == stream_after(old(db)@, *config, users@, events_view(events@), blobs@, now).users,
        r@.len() == final(db)@.events.len() - old(db)@.events.len(),
        forall|j: int|
            0 <= j < r@.len() ==> (#[trigger] r@[j] matches SseEvent::Pixel(s) && s@ == state_of_event(
                final(db)@.events[old(db)@.events.len() + j],
            )),
{
    let mut out: Vec<SseEvent> = Vec::new();
    let mut i: usize = 0;
    while i < events.len()
        invariant
            i <= events@.len(),
            blobs@.len() == events@.len(),
            db@.wf(),
            db@.resizes == old(db)@.resizes,
            db@.events == stream_after(
                old(db)@,
                *config,
                users@,
                events_view(events@.subrange(0, i as int)),
                blobs@.subrange(0, i as int),
                now,
            ).events,
            db@.users == stream_after(
                old(db)@,
                *config,
                users@,
                events_view(events@.subrange(0, i as int)),
                blobs@.subrange(0, i as int),
                now,
            ).users,
            db@.events.len() >= old(db)@.events.len(),
            out@.len() == db@.events.len() - old(db)@.events.len(),
            db@.events.subrange(0, old(db)@.events.len() as int) == old(db)@.events,
            forall|j: int|
                0 <= j < out@.len() ==> (#[trigger] out@[j] matches SseEvent::Pixel(s) && s@ == state_of_event(
                    db@.events[old(db)@.events.len() + j],
                )),
        decreases events.len() - i,
    {
        let ghost evs = events_view(events@.subrange(0, i as int + 1));
        let ghost bs = blobs@.subrange(0, i as int + 1);
        proof {
            assert(evs.drop_last() =~= events_view(events@.subrange(0, i as int)));
            assert(bs.drop_last() =~= blobs@.subrange(0, i as int));
            assert(evs.last() == events@[i as int]@);
            assert(bs.last() == blobs@[i as int]);
        }
        let ghost prev = stream_after(
            old(db)@,
            *config,
            users@,
            events_view(events@.subrange(0, i as int)),
            blobs@.subrange(0, i as int),
            now,
        );
        assert(prev.resizes == old(db)@.resizes) by {
            lemma_stream_keeps_resizes(old(db)@, *config, users@, events_view(events@.subrange(0, i as int)), blobs@.subrange(0, i as int), now);
        }
        let ghost before = db@;
        let r = process_stream_event(db, config, users, &events[i], &blobs[i], now);
        proof {
            assert(events_after_event(prev, *config, events@[i as int]@, users@, blobs@[i as int], now)
                == events_after_event(before, *config, events@[i as int]@, users@, blobs@[i as int], now));
        }
        proof {
            assert forall|j: int| 0 <= j < db@.events.len() - 1 implies db@.events[j] == before.events[j] by {
                if db@.events.len() > before.events.len() {
                    assert(db@.events[j] == before.events.push(db@.events.last())[j]);
                }
            }
        }
        match r {
            Some(Ok(Some(e))) => {
                out.push(e);
            },
            _ => {},
        }
        proof {
            assert(db@.events.subrange(0, old(db)@.events.len() as int) =~= old(db)@.events) by {
                assert forall|j: int| 0 <= j < old(db)@.events.len() implies db@.events[j] == old(db)@.events[j] by {
                    assert(before.events.subrange(0, old(db)@.events.len() as int)[j] == old(db)@.events[j]);
                }
            }
        }
        i = i + 1;
    }
    assert(events@.subrange(0, events@.len() as int) =~= events@);
    assert(blobs@.subrange(0, blobs@.len() as int) =~= blobs@);
    out
}

proof fn lemma_stream_keeps_resizes(
    db: DbModel,
    cfg: CanvasConfig,
    watched: Seq<(String, String)>,
    evs: Seq<SseModel>,
    blobs: Seq<PixelBlob>,
    now: i64,
)
    ensures
        stream_after(db, cfg, watched, evs, blobs, now).resizes == db.resizes,
    decreases evs.len(),
{
    if evs.len() > 0 && blobs.len() == evs.len() {
        lemma_stream_keeps_resizes(db, cfg, watched, evs.drop_last(), blobs.drop_last(), now);
    }
}

} // verus!

verus! {

/// The next canvas size when the canvas is full and at least half of it has
/// been overwritten: a square doubles its width, any other shape its height.
/// `None` where no resize is due, or where the doubled side would not fit.
pub open spec fn resize_decision(w: u32, h: u32, filled: int, overwritten: int) -> Option<(u32, u32)> {
    let total = w as int * h as int;
    if filled >= total && overwritten >= total / 2 {
        if w == h {
            if 2 * w as int <= u32::MAX as int {
                Some(((2 * w) as u32, h))
            } else {
                None
            }
        } else if 2 * h as int <= u32::MAX as int {
            Some((w, (2 * h) as u32))
        } else {
            None
        }
    } else {
        None
    }
}

/// Decides whether the canvas grows, from its size and fill statistics.
pub fn next_canvas_size(w: u32, h: u32, filled: u64, overwritten: u64) -> (r: Option<(u32, u32)>)
    ensures
        r == resize_decision(w, h, filled as int, overwritten as int),
{
    assert(w as int * h as int <= u32::MAX as int * u32::MAX as int) by (nonlinear_arith);
    let total: u64 = w as u64 * h as u64;
    if filled >= total && overwritten >= total / 2 {
        if w == h {
            if w <= u32::MAX / 2 {
                Some((2 * w, h))
            } else {
                None
            }
        } else if h <= u32::MAX / 2 {
            Some((w, 2 * h))
        } else {
            None
        }
    } else {
        None
    }
}

/// Runs the resize rule once, at clock reading `now`. The new size is recorded
/// with `activated_at = now` and announced; nothing happens where no resize is
/// due, or where the record could not follow the latest one (the clock has not
/// moved past its activation time, or the size would not grow).
pub fn check_resize(db: &mut Db, now: i64) -> (r: Option<SseEvent>)
    requires
        old(db)@.wf(),
    ensures
        final(db)@.wf(),
        final(db)@.users == old(db)@.users,
        final(db)@.events == old(db)@.events,
        final(db)@.cells == old(db)@.cells,
        ({
            let (w, h) = old(db)@.dimensions();
            let unchanged = final(db)@.resizes == old(db)@.resizes && r is None;
            match resize_decision(w, h, old(db)@.cells.len() as int, count_overwritten(old(db)@.cells) as int) {
                Some((nw, nh)) => if may_follow(old(db)@.resizes, nw, nh, now) {
                    &&& final(db)@.resizes == old(db)@.resizes.push((nw, nh, now))
                    &&& r == Some(SseEvent::Resize { old_width: w, old_height: h, new_width: nw, new_height: nh })
                } else {
                    unchanged
                },
                None => unchanged,
            }
        }),
{
    let (w, h) = get_canvas_dimensions(db);
    let (filled, overwritten) = get_fill_stats(db);
    let (nw, nh) = match next_canvas_size(w, h, filled, overwritten) {
        None => return None,
        Some(d) => d,
    };
    let last = db_last_resize(db);
    if !(now > last.2 && nw >= last.0 && nh >= last.1 && (nw > last.0 || nh > last.1)) {
        return None;
    }
    resize_canvas(db, nw, nh, now);
    Some(SseEvent::Resize { old_width: w, old_height: h, new_width: nw, new_height: nh })
}

fn db_last_resize(db: &Db) -> (r: (u32, u32, i64))
    requires
        db@.wf(),
    ensures
        r == db@.resizes.last(),
{
    let h = get_resize_history(db);
    h[h.len() - 1]
}

/// The user filters of an events-stream request: `&user=<pk>` for a user
/// without a cursor, `&user=<pk>:<cursor>` otherwise.
pub open spec fn user_params(users: Seq<(String, String)>) -> Seq<char>
    decreases users.len(),
{
    if users.len() == 0 {
        Seq::empty()
    } else {
        let (pk, cursor) = users.last();
        user_params(users.drop_last()) + "&user="@ + pk@ + if cursor@.len() == 0 {
            Seq::<char>::empty()
        } else {
            ":"@ + cursor@
        }
    }
}

pub open spec fn events_url(hs: Seq<char>, users: Seq<(String, String)>) -> Seq<char> {
    "https://"@ + hs + "/events-stream?path=/pub/pubky-canva/pixels/"@ + user_params(users)
}

/// The one request that polls every listed user of homeserver `hs`.
pub fn build_events_url(hs: &str, users: &[(String, String)]) -> (r: String)
    ensures
        r@ == events_url(hs@, users@),
{
    let mut out: Vec<char> = Vec::new();
    push_str_chars(&mut out, "https://");
    push_str_chars(&mut out, hs);
    push_str_chars(&mut out, "/events-stream?path=/pub/pubky-canva/pixels/");
    let ghost head = out@;
    assert(head =~= "https://"@ + hs@ + "/events-stream?path=/pub/pubky-canva/pixels/"@);
    let mut i: usize = 0;
    assert(users@.subrange(0, 0) =~= Seq::<(String, String)>::empty());
    while i < users.len()
        invariant
            i <= users@.len(),
            out@ == head + user_params(users@.subrange(0, i as int)),
        decreases users.len() - i,
    {
        let ghost pre = users@.subrange(0, i as int + 1);
        assert(pre.drop_last() =~= users@.subrange(0, i as int));
        assert(pre.last() == users@[i as int]);
        push_str_chars(&mut out, "&user=");
        push_str_chars(&mut out, users[i].0.as_str());
        if !users[i].1.as_str().is_empty() {
            push_str_chars(&mut out, ":");
            push_str_chars(&mut out, users[i].1.as_str());
        }
        i = i + 1;
        assert(out@ =~= head + user_params(users@.subrange(0, i as int)));
    }
    assert(users@.subrange(0, users@.len() as int) =~= users@);
    string_of(out.as_slice())
}

} // verus!

verus! {

/// The store's commit log and users' rows after one stream event.
pub open spec fn after_event(
    db: DbModel,
    cfg: CanvasConfig,
    ev: SseModel,
    watched: Seq<(String, String)>,
    blob: PixelBlob,
    now: i64,
) -> DbModel {
    DbModel {
        events: events_after_event(db, cfg, ev, watched, blob, now),
        users: users_after_event(db.users, ev, watched),
        ..db
    }
}

/// Handling the same stream event a second time changes nothing: the log
/// keeps a single commit of it, every cell stays as the first handling left
/// it, and the cursors stay where they were.
pub proof fn lemma_replay_idempotent(
    db: DbModel,
    cfg: CanvasConfig,
    ev: SseModel,
    watched: Seq<(String, String)>,
    blob: PixelBlob,
    now: i64,
)
    ensures
        ({
            let once = after_event(db, cfg, ev, watched, blob, now);
            let twice = after_event(once, cfg, ev, watched, blob, now);
            &&& twice.events == once.events
            &&& twice.users == once.users
            &&& forall|x: u32, y: u32| #[trigger] cell_of(twice.events, x, y) == cell_of(once.events, x, y)
        }),
{
    let once = after_event(db, cfg, ev, watched, blob, now);
    match stream_target(ev, watched) {
        None => {},
        Some((user, id)) => {
            match pipeline_verdict(db, cfg, user, id, blob, now) {
                Ok(Some(p)) => {
                    let e = committed_event(id, user, p, id_timestamp(id));
                    assert(once.events[once.events.len() - 1] == e);
                    assert(once.events[once.events.len() - 1].id == id);
                    assert(once.has_event(id));
                },
                _ => {
                    assert(once.events == db.events);
                },
            }
            if ev.cursor.len() > 0 {
                assert(with_cursor(with_cursor(db.users, user, ev.cursor), user, ev.cursor)
                    =~= with_cursor(db.users, user, ev.cursor));
            }
        },
    }
}

/// The cursor that a stream leaves for `key`: that of the last event of `key`
/// to be handled that carries a non-empty cursor.
pub open spec fn last_cursor(evs: Seq<SseModel>, watched: Seq<(String, String)>, key: Seq<char>) -> Option<
    Seq<char>,
>
    decreases evs.len(),
{
    if evs.len() == 0 {
        None
    } else {
        let ev = evs.last();
        match stream_target(ev, watched) {
            Some((user, _)) if user == key && ev.cursor.len() > 0 => Some(ev.cursor),
            _ => last_cursor(evs.drop_last(), watched, key),
        }
    }
}

/// After a stream has been handled, each user's cursor is the last non-empty
/// cursor the stream gave for that user, or unchanged where it gave none.
pub proof fn lemma_cursor_follows_stream(
    db: DbModel,
    cfg: CanvasConfig,
    watched: Seq<(String, String)>,
    evs: Seq<SseModel>,
    blobs: Seq<PixelBlob>,
    now: i64,
)
    requires
        blobs.len() == evs.len(),
    ensures
        ({
            let fin = stream_after(db, cfg, watched, evs, blobs, now);
            &&& fin.users.len() == db.users.len()
            &&& forall|i: int|
                0 <= i < db.users.len() ==> #[trigger] fin.users[i] == match last_cursor(
                    evs,
                    watched,
                    db.users[i].key,
                ) {
                    Some(c) => UserModel { cursor: c, ..db.users[i] },
                    None => db.users[i],
                }
        }),
    decreases evs.len(),
{
    if evs.len() > 0 {
        lemma_cursor_follows_stream(db, cfg, watched, evs.drop_last(), blobs.drop_last(), now);
    }
}

/// Every commit leaves its author with at most `max_credits` placements in
/// the regeneration window that ends at the commit's time.
pub proof fn lemma_credit_conservation(
    db: DbModel,
    cfg: CanvasConfig,
    user: Seq<char>,
    id: Seq<char>,
    blob: PixelBlob,
    now: i64,
)
    requires
        pipeline_verdict(db, cfg, user, id, blob, now) matches Ok(Some(_)),
    ensures
        count_in_window(
            pipeline_events(db, cfg, user, id, blob, now),
            user,
            id_timestamp(id) as int,
            regen_window(cfg) as int,
        ) <= cfg.max_credits,
{
    let p = pipeline_verdict(db, cfg, user, id, blob, now)->Ok_0->0;
    let ev = pipeline_events(db, cfg, user, id, blob, now);
    assert(ev.drop_last() =~= db.events);
}

proof fn lemma_reach_time_extends(h: Seq<(u32, u32, i64)>, later: Seq<(u32, u32, i64)>, x: u32, y: u32)
    requires
        first_reach_time(h, x, y) is Some,
    ensures
        first_reach_time(h + later, x, y) == first_reach_time(h, x, y),
    decreases h.len(),
{
    assert((h + later)[0] == h[0]);
    if !reaches(h[0], x, y) {
        assert((h + later).drop_first() =~= h.drop_first() + later);
        lemma_reach_time_extends(h.drop_first(), later, x, y);
    }
}

/// A committed placement is never earlier than the activation of the first
/// canvas size that contained its coordinates, however many resize records are
/// appended afterwards.
pub proof fn lemma_anti_backdating(
    db: DbModel,
    cfg: CanvasConfig,
    user: Seq<char>,
    id: Seq<char>,
    blob: PixelBlob,
    now: i64,
    later: Seq<(u32, u32, i64)>,
)
    requires
        pipeline_verdict(db, cfg, user, id, blob, now) matches Ok(Some(_)),
    ensures
        ({
            let p = pipeline_verdict(db, cfg, user, id, blob, now)->Ok_0->0;
            &&& first_reach_time(db.resizes + later, p.x, p.y) is Some
            &&& id_timestamp(id) >= first_reach_time(db.resizes + later, p.x, p.y)->0
        }),
{
    let p = pipeline_verdict(db, cfg, user, id, blob, now)->Ok_0->0;
    lemma_reach_time_extends(db.resizes, later, p.x, p.y);
}

} // verus!

verus! {

/// No window of length `window` ends anywhere with more than `max` placements of `user`.
pub open spec fn within_credits(ev: Seq<EventModel>, user: Seq<char>, window: int, max: int) -> bool {
    forall|t: int| #[trigger] count_in_window(ev, user, t, window) <= max
}

proof fn lemma_count_window_later(ev: Seq<EventModel>, user: Seq<char>, t: int, u: int, window: int)
    requires
        t <= u,
        forall|i: int| 0 <= i < ev.len() && #[trigger] ev[i].user == user ==> ev[i].placed_at <= t,
    ensures
        count_in_window(ev, user, u, window) <= count_in_window(ev, user, t, window),
    decreases ev.len(),
{
    if ev.len() > 0 {
        let pre = ev.drop_last();
        assert forall|i: int| 0 <= i < pre.len() && #[trigger] pre[i].user == user implies pre[i].placed_at <= t by {
            assert(pre[i] == ev[i]);
        }
        lemma_count_window_later(pre, user, t, u, window);
        if ev.last().user == user {
            assert(ev[ev.len() - 1].user == user);
        }
    }
}

/// Where an author's placements are committed in time order, the credit bound
/// holds for every window, not only for the one ending at each commit.
pub proof fn lemma_credit_conservation_in_order(
    db: DbModel,
    cfg: CanvasConfig,
    user: Seq<char>,
    id: Seq<char>,
    blob: PixelBlob,
    now: i64,
)
    requires
        within_credits(db.events, user, regen_window(cfg) as int, cfg.max_credits as int),
        forall|i: int|
            0 <= i < db.events.len() && #[trigger] db.events[i].user == user ==> db.events[i].placed_at
                <= id_timestamp(id),
    ensures
        within_credits(
            pipeline_events(db, cfg, user, id, blob, now),
            user,
            regen_window(cfg) as int,
            cfg.max_credits as int,
        ),
{
    let w = regen_window(cfg) as int;
    let ev = pipeline_events(db, cfg, user, id, blob, now);
    if pipeline_verdict(db, cfg, user, id, blob, now) matches Ok(Some(_)) {
        let t = id_timestamp(id) as int;
        assert(ev.drop_last() =~= db.events);
        assert forall|u: int| #[trigger] count_in_window(ev, user, u, w) <= cfg.max_credits as int by {
            assert(count_in_window(db.events, user, u, w) <= cfg.max_credits);
            if u - w < t <= u {
                lemma_count_window_later(db.events, user, t, u, w);
            }
        }
    }
}

} // verus!
