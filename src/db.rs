use vstd::prelude::*;
use crate::error::IndexerError;

verus! {

/// A user whose homeserver is polled.
#[derive(Debug, Clone, PartialEq, Eq)]
pub struct User {
    pub public_key: String,
    pub homeserver_pk: String,
    pub cursor: String,
    pub created_at: i64,
}

/// A committed pixel placement.
#[derive(Debug, Clone, PartialEq, Eq)]
pub struct PixelEvent {
    pub id: String,
    pub user_pk: String,
    pub x: u32,
    pub y: u32,
    pub color: u8,
    pub placed_at: i64,
}

/// The materialized state of one canvas cell.
#[derive(Debug, Clone, PartialEq, Eq)]
pub struct CanvasCell {
    pub x: u32,
    pub y: u32,
    pub color: u8,
    pub user_pk: String,
    pub first_user_pk: String,
    pub placed_at: i64,
    pub was_overwritten: bool,
}

pub ghost struct UserModel {
    pub key: Seq<char>,
    pub homeserver: Seq<char>,
    pub cursor: Seq<char>,
    /// Seconds since the Unix epoch.
    pub created_at: i64,
}

pub ghost struct EventModel {
    pub id: Seq<char>,
    pub user: Seq<char>,
    pub x: u32,
    pub y: u32,
    pub color: u8,
    pub placed_at: i64,
}

pub ghost struct CellModel {
    pub x: u32,
    pub y: u32,
    pub color: u8,
    pub user: Seq<char>,
    pub first_user: Seq<char>,
    pub placed_at: i64,
    pub was_overwritten: bool,
}

impl View for User {
    type V = UserModel;

    open spec fn view(&self) -> UserModel {
        UserModel {
            key: self.public_key@,
            homeserver: self.homeserver_pk@,
            cursor: self.cursor@,
            created_at: self.created_at,
        }
    }
}

impl View for PixelEvent {
    type V = EventModel;

    open spec fn view(&self) -> EventModel {
        EventModel {
            id: self.id@,
            user: self.user_pk@,
            x: self.x,
            y: self.y,
            color: self.color,
            placed_at: self.placed_at,
        }
    }
}

impl View for CanvasCell {
    type V = CellModel;

    open spec fn view(&self) -> CellModel {
        CellModel {
            x: self.x,
            y: self.y,
            color: self.color,
            user: self.user_pk@,
            first_user: self.first_user_pk@,
            placed_at: self.placed_at,
            was_overwritten: self.was_overwritten,
        }
    }
}

/// The cell at `(x, y)` as the commit log `ev` leaves it: created by the
/// first event there, then recolored by each later one; its first author never
/// changes, and it counts as overwritten once any author other than the first
/// has written it.
pub open spec fn cell_of(ev: Seq<EventModel>, x: u32, y: u32) -> Option<CellModel>
    decreases ev.len(),
{
    if ev.len() == 0 {
        None
    } else {
        let prev = cell_of(ev.drop_last(), x, y);
        let e = ev.last();
        if e.x != x || e.y != y {
            prev
        } else {
            match prev {
                None => Some(
                    CellModel {
                        x,
                        y,
                        color: e.color,
                        user: e.user,
                        first_user: e.user,
                        placed_at: e.placed_at,
                        was_overwritten: false,
                    },
                ),
                Some(c) => Some(
                    CellModel {
                        color: e.color,
                        user: e.user,
                        placed_at: e.placed_at,
                        was_overwritten: c.was_overwritten || e.user != c.first_user,
                        ..c
                    },
                ),
            }
        }
    }
}

/// Number of events of `user` in `ev` placed in `(t - window, t]`.
pub open spec fn count_in_window(ev: Seq<EventModel>, user: Seq<char>, t: int, window: int) -> nat
    decreases ev.len(),
{
    if ev.len() == 0 {
        0
    } else {
        let e = ev.last();
        count_in_window(ev.drop_last(), user, t, window) + if e.user == user && t - window
            < e.placed_at <= t {
            1nat
        } else {
            0nat
        }
    }
}

/// Whether a resize history is ordered strictly by activation time and each
/// record grows the canvas without shrinking either side.
pub open spec fn history_ok(h: Seq<(u32, u32, i64)>) -> bool {
    &&& h.len() > 0
    &&& forall|i: int|
        0 < i < h.len() ==> {
            &&& #[trigger] h[i].2 > h[i - 1].2
            &&& h[i].0 >= h[i - 1].0
            &&& h[i].1 >= h[i - 1].1
            &&& (h[i].0 > h[i - 1].0 || h[i].1 > h[i - 1].1)
        }
}

/// The indexer's state store: users, the pixel commit log, the materialized
/// canvas and the resize history.
pub struct Db {
    users: Vec<User>,
    events: Vec<PixelEvent>,
    cells: Vec<CanvasCell>,
    resizes: Vec<(u32, u32, i64)>,
}

pub ghost struct DbModel {
    pub users: Seq<UserModel>,
    pub events: Seq<EventModel>,
    pub cells: Seq<CellModel>,
    pub resizes: Seq<(u32, u32, i64)>,
}

impl View for Db {
    type V = DbModel;

    closed spec fn view(&self) -> DbModel {
        DbModel {
            users: self.users@.map_values(|u: User| u@),
            events: self.events@.map_values(|e: PixelEvent| e@),
            cells: self.cells@.map_values(|c: CanvasCell| c@),
            resizes: self.resizes@,
        }
    }
}

impl DbModel {
    pub open spec fn has_user(self, key: Seq<char>) -> bool {
        exists|i: int| 0 <= i < self.users.len() && #[trigger] self.users[i].key == key
    }

    pub open spec fn has_event(self, id: Seq<char>) -> bool {
        exists|i: int| 0 <= i < self.events.len() && #[trigger] self.events[i].id == id
    }

    /// The table of cells is the materialized view of the commit log.
    pub open spec fn cells_match(self) -> bool {
        &&& forall|i: int|
            0 <= i < self.cells.len() ==> cell_of(self.events, #[trigger] self.cells[i].x, self.cells[i].y)
                == Some(self.cells[i])
        &&& forall|x: u32, y: u32|
            (#[trigger] cell_of(self.events, x, y)) is Some ==> exists|i: int|
                0 <= i < self.cells.len() && self.cells[i].x == x && self.cells[i].y == y
        &&& forall|i: int, j: int|
            0 <= i < j < self.cells.len() ==> !(self.cells[i].x == self.cells[j].x
                && #[trigger] self.cells[i].y == #[trigger] self.cells[j].y)
    }

    pub open spec fn wf(self) -> bool {
        &&& forall|i: int, j: int|
            0 <= i < j < self.users.len() ==> #[trigger] self.users[i].key != #[trigger] self.users[j].key
        &&& forall|i: int, j: int|
            0 <= i < j < self.events.len() ==> #[trigger] self.events[i].id != #[trigger] self.events[j].id
        &&& self.cells_match()
        &&& history_ok(self.resizes)
    }

    /// The current canvas size: the latest resize record.
    pub open spec fn dimensions(self) -> (u32, u32) {
        let r = self.resizes.last();
        (r.0, r.1)
    }

    pub open spec fn cell(self, x: u32, y: u32) -> Option<CellModel> {
        cell_of(self.events, x, y)
    }
}

} // verus!

verus! {

proof fn lemma_views_push<T: View>(s: Seq<T>, x: T)
    ensures
        s.push(x).map_values(|v: T| v@) == s.map_values(|v: T| v@).push(x@),
{
    assert(s.push(x).map_values(|v: T| v@) =~= s.map_values(|v: T| v@).push(x@));
}

proof fn lemma_views_update<T: View>(s: Seq<T>, i: int, x: T)
    requires
        0 <= i < s.len(),
    ensures
        s.update(i, x).map_values(|v: T| v@) == s.map_values(|v: T| v@).update(i, x@),
{
    assert(s.update(i, x).map_values(|v: T| v@) =~= s.map_values(|v: T| v@).update(i, x@));
}

/// Opens an empty store whose canvas starts at `width` × `height`.
pub fn open(width: u32, height: u32) -> (db: Db)
    ensures
        db@.wf(),
        db@.users.len() == 0,
        db@.events.len() == 0,
        db@.resizes == seq![(width, height, 0i64)],
{
    let mut resizes: Vec<(u32, u32, i64)> = Vec::new();
    resizes.push((width, height, 0));
    let db = Db { users: Vec::new(), events: Vec::new(), cells: Vec::new(), resizes };
    assert(db@.resizes =~= seq![(width, height, 0i64)]);
    assert(db@.events =~= Seq::<EventModel>::empty());
    assert(db@.cells =~= Seq::<CellModel>::empty());
    assert(db@.users =~= Seq::<UserModel>::empty());
    db
}

/// Sets the seed size while the canvas has never been resized.
pub fn set_initial_size(db: &mut Db, size: u32)
    requires
        old(db)@.wf(),
    ensures
        final(db)@.wf(),
        final(db)@.users == old(db)@.users,
        final(db)@.events == old(db)@.events,
        final(db)@.cells == old(db)@.cells,
        final(db)@.resizes == (if old(db)@.resizes.len() == 1 {
            seq![(size, size, old(db)@.resizes[0].2)]
        } else {
            old(db)@.resizes
        }),
{
    if db.resizes.len() == 1 {
        let at = db.resizes[0].2;
        db.resizes.set(0, (size, size, at));
        assert(db@.resizes =~= seq![(size, size, at)]);
        assert(history_ok(db@.resizes));
    }
    assert(db@.events == old(db)@.events);
    assert(db@.cells == old(db)@.cells);
    assert(db@.users == old(db)@.users);
}

/// The current canvas size, from the latest resize record.
pub fn get_canvas_dimensions(db: &Db) -> (r: (u32, u32))
    requires
        db@.wf(),
    ensures
        r == db@.dimensions(),
{
    let r = db.resizes[db.resizes.len() - 1];
    (r.0, r.1)
}

/// The resize history, ascending by activation time.
pub fn get_resize_history(db: &Db) -> (r: Vec<(u32, u32, i64)>)
    ensures
        r@ == db@.resizes,
{
    let mut r: Vec<(u32, u32, i64)> = Vec::new();
    let mut i: usize = 0;
    while i < db.resizes.len()
        invariant
            i <= db.resizes@.len(),
            r@ == db.resizes@.subrange(0, i as int),
        decreases db.resizes.len() - i,
    {
        r.push(db.resizes[i]);
        i = i + 1;
        assert(r@ =~= db.resizes@.subrange(0, i as int));
    }
    assert(r@ =~= db.resizes@);
    r
}

/// Whether `public_key` has been admitted.
pub fn user_exists(db: &Db, public_key: &str) -> (r: bool)
    ensures
        r == db@.has_user(public_key@),
{
    let key = public_key.to_owned();
    let mut i: usize = 0;
    while i < db.users.len()
        invariant
            key@ == public_key@,
            i <= db.users@.len(),
            forall|j: int| 0 <= j < i ==> db@.users[j].key != key@,
        decreases db.users.len() - i,
    {
        if db.users[i].public_key == key {
            assert(db@.users[i as int].key == key@);
            return true;
        }
        i = i + 1;
    }
    false
}

/// Admits a user on a homeserver at clock reading `now_secs` (seconds since the
/// Unix epoch); does nothing where the user is known.
pub fn add_user(db: &mut Db, public_key: &str, homeserver_pk: &str, now_secs: i64)
    requires
        old(db)@.wf(),
    ensures
        final(db)@.wf(),
        final(db)@.events == old(db)@.events,
        final(db)@.cells == old(db)@.cells,
        final(db)@.resizes == old(db)@.resizes,
        final(db)@.users == (if old(db)@.has_user(public_key@) {
            old(db)@.users
        } else {
            old(db)@.users.push(
                UserModel {
                    key: public_key@,
                    homeserver: homeserver_pk@,
                    cursor: Seq::empty(),
                    created_at: now_secs,
                },
            )
        }),
{
    if user_exists(db, public_key) {
        return;
    }
    let user = User {
        public_key: public_key.to_owned(),
        homeserver_pk: homeserver_pk.to_owned(),
        cursor: String::new(),
        created_at: now_secs,
    };
    proof {
        lemma_views_push(db.users@, user);
    }
    db.users.push(user);
    assert forall|i: int, j: int|
        0 <= i < j < db@.users.len() implies #[trigger] db@.users[i].key != #[trigger] db@.users[j].key by {
        if j == db@.users.len() - 1 {
            assert(old(db)@.users[i].key == db@.users[i].key);
            assert(db@.users[j] == user@);
            assert(old(db)@.users[i].key != public_key@);
        } else {
            assert(db@.users[i] == old(db)@.users[i]);
            assert(db@.users[j] == old(db)@.users[j]);
        }
    }
}

/// Records the event-stream position reached for a user.
pub fn update_user_cursor(db: &mut Db, user_pk: &str, cursor: &str)
    requires
        old(db)@.wf(),
    ensures
        final(db)@.wf(),
        final(db)@.events == old(db)@.events,
        final(db)@.cells == old(db)@.cells,
        final(db)@.resizes == old(db)@.resizes,
        final(db)@.users.len() == old(db)@.users.len(),
        forall|i: int|
            0 <= i < old(db)@.users.len() ==> #[trigger] final(db)@.users[i] == if old(
                db,
            )@.users[i].key == user_pk@ {
                UserModel { cursor: cursor@, ..old(db)@.users[i] }
            } else {
                old(db)@.users[i]
            },
{
    let key = user_pk.to_owned();
    let mut i: usize = 0;
    while i < db.users.len()
        invariant
            key@ == user_pk@,
            i <= db.users@.len(),
            db@.users.len() == old(db)@.users.len(),
            db@.events == old(db)@.events,
            db@.cells == old(db)@.cells,
            db@.resizes == old(db)@.resizes,
            forall|j: int|
                0 <= j < i ==> #[trigger] db@.users[j] == if old(db)@.users[j].key == user_pk@ {
                    UserModel { cursor: cursor@, ..old(db)@.users[j] }
                } else {
                    old(db)@.users[j]
                },
            forall|j: int| i <= j < db@.users.len() ==> #[trigger] db@.users[j] == old(db)@.users[j],
        decreases db.users.len() - i,
    {
        let ghost pre = db@.users;
        assert(pre[i as int] == old(db)@.users[i as int]);
        if db.users[i].public_key == key {
            let u = User {
                public_key: db.users[i].public_key.clone(),
                homeserver_pk: db.users[i].homeserver_pk.clone(),
                cursor: cursor.to_owned(),
                created_at: db.users[i].created_at,
            };
            proof {
                lemma_views_update(db.users@, i as int, u);
            }
            db.users.set(i, u);
            assert(db@.users == pre.update(i as int, UserModel { cursor: cursor@, ..old(db)@.users[i as int] }));
        }
        i = i + 1;
    }
    assert forall|i: int, j: int|
        0 <= i < j < db@.users.len() implies #[trigger] db@.users[i].key != #[trigger] db@.users[j].key by {
        assert(db@.users[i].key == old(db)@.users[i].key);
        assert(db@.users[j].key == old(db)@.users[j].key);
    }
}

} // verus!

verus! {

/// Whether an event with this ID has been committed.
pub fn pixel_event_exists(db: &Db, id: &str) -> (r: bool)
    ensures
        r == db@.has_event(id@),
{
    let key = id.to_owned();
    let mut i: usize = 0;
    while i < db.events.len()
        invariant
            key@ == id@,
            i <= db.events@.len(),
            forall|j: int| 0 <= j < i ==> db@.events[j].id != key@,
        decreases db.events.len() - i,
    {
        if db.events[i].id == key {
            assert(db@.events[i as int].id == key@);
            return true;
        }
        i = i + 1;
    }
    false
}

/// How many placements of `user_pk` lie in `(timestamp - regen_us, timestamp]`.
pub fn count_recent_placements(db: &Db, user_pk: &str, timestamp: i64, regen_us: i64) -> (r: u64)
    ensures
        r == count_in_window(db@.events, user_pk@, timestamp as int, regen_us as int),
{
    let key = user_pk.to_owned();
    let cutoff: i128 = timestamp as i128 - regen_us as i128;
    let mut n: u64 = 0;
    let mut i: usize = 0;
    while i < db.events.len()
        invariant
            key@ == user_pk@,
            cutoff == timestamp as int - regen_us as int,
            i <= db.events@.len(),
            n == count_in_window(db@.events.subrange(0, i as int), user_pk@, timestamp as int, regen_us as int),
            n <= i,
        decreases db.events.len() - i,
    {
        let e = &db.events[i];
        let ghost pre = db@.events.subrange(0, i as int + 1);
        assert(pre.drop_last() =~= db@.events.subrange(0, i as int));
        assert(pre.last() == db@.events[i as int]);
        if e.user_pk == key && cutoff < e.placed_at as i128 && e.placed_at <= timestamp {
            n = n + 1;
        }
        i = i + 1;
    }
    assert(db@.events.subrange(0, db@.events.len() as int) =~= db@.events);
    n
}

proof fn lemma_cell_of_push(ev: Seq<EventModel>, e: EventModel, x: u32, y: u32)
    ensures
        cell_of(ev.push(e), x, y) == (if e.x != x || e.y != y {
            cell_of(ev, x, y)
        } else {
            match cell_of(ev, x, y) {
                None => Some(
                    CellModel {
                        x,
                        y,
                        color: e.color,
                        user: e.user,
                        first_user: e.user,
                        placed_at: e.placed_at,
                        was_overwritten: false,
                    },
                ),
                Some(c) => Some(
                    CellModel {
                        color: e.color,
                        user: e.user,
                        placed_at: e.placed_at,
                        was_overwritten: c.was_overwritten || e.user != c.first_user,
                        ..c
                    },
                ),
            }
        }),
{
    assert(ev.push(e).drop_last() =~= ev);
}

/// What committing a placement of `user` reports for the cell it finds:
/// whether the cell is new, and whether this write overwrites it for the first time.
pub open spec fn commit_report(prev: Option<CellModel>, user: Seq<char>) -> (bool, bool) {
    match prev {
        None => (true, false),
        Some(c) => (false, !c.was_overwritten && c.first_user != user),
    }
}

/// Position of the cell `(x, y)` in the table, if any.
fn find_cell(db: &Db, x: u32, y: u32) -> (r: Option<usize>)
    requires
        db@.wf(),
    ensures
        match r {
            Some(k) => k < db@.cells.len() && db@.cells[k as int].x == x && db@.cells[k as int].y == y
                && db@.cell(x, y) == Some(db@.cells[k as int]),
            None => db@.cell(x, y) is None && forall|j: int|
                0 <= j < db@.cells.len() ==> !(db@.cells[j].x == x && db@.cells[j].y == y),
        },
{
    let mut i: usize = 0;
    while i < db.cells.len()
        invariant
            db@.wf(),
            i <= db.cells@.len(),
            forall|j: int| 0 <= j < i ==> !(#[trigger] db@.cells[j].x == x && db@.cells[j].y == y),
        decreases db.cells.len() - i,
    {
        if db.cells[i].x == x && db.cells[i].y == y {
            assert(db@.cells[i as int].x == x && db@.cells[i as int].y == y);
            return Some(i);
        }
        i = i + 1;
    }
    proof {
        if cell_of(db@.events, x, y) is Some {
            let j = choose|j: int|
                0 <= j < db@.cells.len() && db@.cells[j].x == x && db@.cells[j].y == y;
            assert(db@.cells[j].x == x);
        }
    }
    None
}

/// Commits a placement: appends it to the log and brings its cell up to date.
/// Reports whether the cell is new and whether it was overwritten for the first
/// time; an ID already in the log is refused and nothing changes.
pub fn insert_pixel(
    db: &mut Db,
    id: &str,
    user_pk: &str,
    x: u32,
    y: u32,
    color: u8,
    placed_at: i64,
) -> (r: Result<(bool, bool), IndexerError>)
    requires
        old(db)@.wf(),
    ensures
        final(db)@.wf(),
        final(db)@.users == old(db)@.users,
        final(db)@.resizes == old(db)@.resizes,
        old(db)@.has_event(id@) ==> r == Err::<(bool, bool), IndexerError>(
            IndexerError::StoreUnavailable,
        ) && final(db)@ == old(db)@,
        !old(db)@.has_event(id@) ==> {
            &&& final(db)@.events == old(db)@.events.push(
                EventModel { id: id@, user: user_pk@, x, y, color, placed_at },
            )
            &&& r == Ok::<(bool, bool), IndexerError>(commit_report(old(db)@.cell(x, y), user_pk@))
        },
{
    if pixel_event_exists(db, id) {
        return Err(IndexerError::StoreUnavailable);
    }
    let ghost ev0 = db@.events;
    let ghost cells0 = db@.cells;
    let found = find_cell(db, x, y);
    let event = PixelEvent {
        id: id.to_owned(),
        user_pk: user_pk.to_owned(),
        x,
        y,
        color,
        placed_at,
    };
    let ghost e = event@;
    proof {
        lemma_views_push(db.events@, event);
    }
    db.events.push(event);
    assert(db@.events == ev0.push(e));
    assert forall|i: int, j: int|
        0 <= i < j < db@.events.len() implies #[trigger] db@.events[i].id != #[trigger] db@.events[j].id by {
        if j == db@.events.len() - 1 {
            assert(db@.events[i] == ev0[i]);
        } else {
            assert(db@.events[i] == ev0[i]);
            assert(db@.events[j] == ev0[j]);
        }
    }
    let report = match found {
        None => {
            let cell = CanvasCell {
                x,
                y,
                color,
                user_pk: user_pk.to_owned(),
                first_user_pk: user_pk.to_owned(),
                placed_at,
                was_overwritten: false,
            };
            proof {
                lemma_views_push(db.cells@, cell);
                lemma_cell_of_push(ev0, e, x, y);
            }
            db.cells.push(cell);
            assert(db@.cells == cells0.push(cell@));
            (true, false)
        },
        Some(k) => {
            let was = db.cells[k].was_overwritten;
            let author = user_pk.to_owned();
            let newly = !was && !(db.cells[k].first_user_pk == author);
            let cell = CanvasCell {
                x,
                y,
                color,
                user_pk: user_pk.to_owned(),
                first_user_pk: db.cells[k].first_user_pk.clone(),
                placed_at,
                was_overwritten: was || newly,
            };
            proof {
                lemma_views_update(db.cells@, k as int, cell);
                lemma_cell_of_push(ev0, e, x, y);
            }
            db.cells.set(k, cell);
            assert(db@.cells == cells0.update(k as int, cell@));
            (false, newly)
        },
    };
    proof {
        let n = db@.cells.len();
        assert forall|i: int| 0 <= i < n implies cell_of(
            db@.events,
            #[trigger] db@.cells[i].x,
            db@.cells[i].y,
        ) == Some(db@.cells[i]) by {
            lemma_cell_of_push(ev0, e, db@.cells[i].x, db@.cells[i].y);
            if i < cells0.len() && !(cells0[i].x == x && cells0[i].y == y) {
                assert(db@.cells[i] == cells0[i]);
            }
        }
        assert forall|cx: u32, cy: u32| (#[trigger] cell_of(db@.events, cx, cy)) is Some implies exists|i: int|
            0 <= i < n && db@.cells[i].x == cx && db@.cells[i].y == cy by {
            lemma_cell_of_push(ev0, e, cx, cy);
            if cx == x && cy == y {
                match found {
                    Some(k) => {
                        assert(db@.cells[k as int].x == cx && db@.cells[k as int].y == cy);
                    },
                    None => {
                        assert(db@.cells[n - 1].x == cx && db@.cells[n - 1].y == cy);
                    },
                }
            } else {
                let i = choose|i: int|
                    0 <= i < cells0.len() && cells0[i].x == cx && cells0[i].y == cy;
                assert(db@.cells[i] == cells0[i]);
            }
        }
        assert forall|i: int, j: int| 0 <= i < j < n implies !(db@.cells[i].x == db@.cells[j].x
            && #[trigger] db@.cells[i].y == #[trigger] db@.cells[j].y) by {
            if i < cells0.len() && !(cells0[i].x == x && cells0[i].y == y) {
                assert(db@.cells[i] == cells0[i]);
            }
            if j < cells0.len() && !(cells0[j].x == x && cells0[j].y == y) {
                assert(db@.cells[j] == cells0[j]);
            }
        }
        assert(db@.cells_match());
    }
    assert(db@.users == old(db)@.users);
    assert(db@.resizes == old(db)@.resizes);
    Ok(report)
}

} // verus!

verus! {

/// Number of cells of `cells` that have been overwritten.
pub open spec fn count_overwritten(cells: Seq<CellModel>) -> nat
    decreases cells.len(),
{
    if cells.len() == 0 {
        0
    } else {
        count_overwritten(cells.drop_last()) + if cells.last().was_overwritten {
            1nat
        } else {
            0nat
        }
    }
}

/// The filled cells and, among them, the overwritten ones.
pub fn get_fill_stats(db: &Db) -> (r: (u64, u64))
    ensures
        r.0 == db@.cells.len(),
        r.1 == count_overwritten(db@.cells),
{
    let mut n: u64 = 0;
    let mut i: usize = 0;
    while i < db.cells.len()
        invariant
            i <= db.cells@.len(),
            n == count_overwritten(db@.cells.subrange(0, i as int)),
            n <= i,
        decreases db.cells.len() - i,
    {
        let ghost pre = db@.cells.subrange(0, i as int + 1);
        assert(pre.drop_last() =~= db@.cells.subrange(0, i as int));
        if db.cells[i].was_overwritten {
            n = n + 1;
        }
        i = i + 1;
    }
    assert(db@.cells.subrange(0, db@.cells.len() as int) =~= db@.cells);
    (db.cells.len() as u64, n)
}

/// Whether `(w, h, at)` may follow the latest record of `h0`: later, and
/// growing the canvas without shrinking either side.
pub open spec fn may_follow(h0: Seq<(u32, u32, i64)>, w: u32, h: u32, at: i64) -> bool {
    let last = h0.last();
    at > last.2 && w >= last.0 && h >= last.1 && (w > last.0 || h > last.1)
}

/// Appends a resize record.
pub fn resize_canvas(db: &mut Db, new_width: u32, new_height: u32, activated_at: i64)
    requires
        old(db)@.wf(),
        may_follow(old(db)@.resizes, new_width, new_height, activated_at),
    ensures
        final(db)@.wf(),
        final(db)@.users == old(db)@.users,
        final(db)@.events == old(db)@.events,
        final(db)@.cells == old(db)@.cells,
        final(db)@.resizes == old(db)@.resizes.push((new_width, new_height, activated_at)),
{
    db.resizes.push((new_width, new_height, activated_at));
    assert(db@.users == old(db)@.users);
    assert(db@.events == old(db)@.events);
    assert(db@.cells == old(db)@.cells);
    let ghost h = db@.resizes;
    assert forall|i: int| 0 < i < h.len() implies {
        &&& #[trigger] h[i].2 > h[i - 1].2
        &&& h[i].0 >= h[i - 1].0
        &&& h[i].1 >= h[i - 1].1
        &&& (h[i].0 > h[i - 1].0 || h[i].1 > h[i - 1].1)
    } by {
        if i < h.len() - 1 {
            assert(h[i] == old(db)@.resizes[i]);
            assert(h[i - 1] == old(db)@.resizes[i - 1]);
        } else {
            assert(h[i - 1] == old(db)@.resizes.last());
        }
    }
}

/// The current state of one cell, as clients see it.
#[derive(Debug, Clone, PartialEq, Eq)]
pub struct PixelState {
    pub x: u32,
    pub y: u32,
    pub color: u8,
    pub user_pk: String,
    pub placed_at: i64,
}

pub ghost struct PixelStateModel {
    pub x: u32,
    pub y: u32,
    pub color: u8,
    pub user: Seq<char>,
    pub placed_at: i64,
}

impl View for PixelState {
    type V = PixelStateModel;

    open spec fn view(&self) -> PixelStateModel {
        PixelStateModel {
            x: self.x,
            y: self.y,
            color: self.color,
            user: self.user_pk@,
            placed_at: self.placed_at,
        }
    }
}

pub open spec fn state_of_cell(c: CellModel) -> PixelStateModel {
    PixelStateModel { x: c.x, y: c.y, color: c.color, user: c.user, placed_at: c.placed_at }
}

fn pixel_state_of(c: &CanvasCell) -> (r: PixelState)
    ensures
        r@ == state_of_cell(c@),
{
    PixelState { x: c.x, y: c.y, color: c.color, user_pk: c.user_pk.clone(), placed_at: c.placed_at }
}

/// Every filled cell of the canvas.
pub fn get_canvas_state(db: &Db) -> (r: Vec<PixelState>)
    ensures
        r@.len() == db@.cells.len(),
        forall|i: int| 0 <= i < r@.len() ==> #[trigger] r@[i]@ == state_of_cell(db@.cells[i]),
{
    let mut r: Vec<PixelState> = Vec::new();
    let mut i: usize = 0;
    while i < db.cells.len()
        invariant
            i <= db.cells@.len(),
            r@.len() == i,
            forall|j: int| 0 <= j < i ==> #[trigger] r@[j]@ == state_of_cell(db@.cells[j]),
        decreases db.cells.len() - i,
    {
        r.push(pixel_state_of(&db.cells[i]));
        i = i + 1;
    }
    r
}

/// Latest placement time among the events of `user` in `ev`.
pub open spec fn last_placement(ev: Seq<EventModel>, user: Seq<char>) -> Option<i64>
    decreases ev.len(),
{
    if ev.len() == 0 {
        None
    } else {
        let prev = last_placement(ev.drop_last(), user);
        let e = ev.last();
        if e.user != user {
            prev
        } else {
            match prev {
                Some(t) if t >= e.placed_at => Some(t),
                _ => Some(e.placed_at),
            }
        }
    }
}

/// The latest placement time of a user, if the user has placed anything.
pub fn get_user_last_placement(db: &Db, user_pk: &str) -> (r: Option<i64>)
    ensures
        r == last_placement(db@.events, user_pk@),
{
    let key = user_pk.to_owned();
    let mut best: Option<i64> = None;
    let mut i: usize = 0;
    while i < db.events.len()
        invariant
            key@ == user_pk@,
            i <= db.events@.len(),
            best == last_placement(db@.events.subrange(0, i as int), user_pk@),
        decreases db.events.len() - i,
    {
        let ghost pre = db@.events.subrange(0, i as int + 1);
        assert(pre.drop_last() =~= db@.events.subrange(0, i as int));
        assert(pre.last() == db@.events[i as int]);
        if db.events[i].user_pk == key {
            let t = db.events[i].placed_at;
            best = match best {
                Some(b) if b >= t => Some(b),
                _ => Some(t),
            };
        }
        i = i + 1;
    }
    assert(db@.events.subrange(0, db@.events.len() as int) =~= db@.events);
    best
}

} // verus!

verus! {

proof fn lemma_no_cell_without_event(ev: Seq<EventModel>, x: u32, y: u32)
    requires
        forall|k: int| 0 <= k < ev.len() ==> !(#[trigger] ev[k].x == x && ev[k].y == y),
    ensures
        cell_of(ev, x, y) is None,
    decreases ev.len(),
{
    if ev.len() > 0 {
        let pre = ev.drop_last();
        assert forall|k: int| 0 <= k < pre.len() implies !(#[trigger] pre[k].x == x && pre[k].y == y) by {
            assert(pre[k] == ev[k]);
        }
        lemma_no_cell_without_event(pre, x, y);
        assert(!(ev[ev.len() - 1].x == x && ev[ev.len() - 1].y == y));
    }
}

/// A cell's first author is the author of the earliest event committed at its
/// coordinates.
pub proof fn lemma_first_author(ev: Seq<EventModel>, x: u32, y: u32, j: int)
    requires
        0 <= j < ev.len(),
        ev[j].x == x && ev[j].y == y,
        forall|k: int| 0 <= k < j ==> !(#[trigger] ev[k].x == x && ev[k].y == y),
    ensures
        cell_of(ev, x, y) is Some,
        cell_of(ev, x, y)->0.first_user == ev[j].user,
    decreases ev.len(),
{
    let pre = ev.drop_last();
    if j == ev.len() - 1 {
        assert forall|k: int| 0 <= k < pre.len() implies !(#[trigger] pre[k].x == x && pre[k].y == y) by {
            assert(pre[k] == ev[k]);
        }
        lemma_no_cell_without_event(pre, x, y);
    } else {
        assert forall|k: int| 0 <= k < j implies !(#[trigger] pre[k].x == x && pre[k].y == y) by {
            assert(pre[k] == ev[k]);
        }
        assert(pre[j] == ev[j]);
        lemma_first_author(pre, x, y, j);
    }
}

/// Later commits never change a cell's first author, and never clear its
/// overwritten flag.
pub proof fn lemma_cell_history_stable(ev: Seq<EventModel>, more: Seq<EventModel>, x: u32, y: u32)
    requires
        cell_of(ev, x, y) is Some,
    ensures
        cell_of(ev + more, x, y) is Some,
        cell_of(ev + more, x, y)->0.first_user == cell_of(ev, x, y)->0.first_user,
        cell_of(ev, x, y)->0.was_overwritten ==> cell_of(ev + more, x, y)->0.was_overwritten,
    decreases more.len(),
{
    if more.len() == 0 {
        assert(ev + more =~= ev);
    } else {
        lemma_cell_history_stable(ev, more.drop_last(), x, y);
        assert((ev + more).drop_last() =~= ev + more.drop_last());
    }
}

} // verus!

verus! {

/// The commit log, in commit order.
pub fn events_of(db: &Db) -> (r: &Vec<PixelEvent>)
    ensures
        r@.map_values(|e: PixelEvent| e@) == db@.events,
{
    &db.events
}

} // verus!

verus! {

/// The `(public_key, cursor)` pairs of the users on homeserver `hs`, in table order.
pub open spec fn members_of(users: Seq<UserModel>, hs: Seq<char>) -> Seq<(Seq<char>, Seq<char>)>
    decreases users.len(),
{
    if users.len() == 0 {
        Seq::empty()
    } else {
        let prev = members_of(users.drop_last(), hs);
        let u = users.last();
        if u.homeserver == hs {
            prev.push((u.key, u.cursor))
        } else {
            prev
        }
    }
}

/// The distinct homeservers of `users`, in order of first appearance.
pub open spec fn homeservers_of(users: Seq<UserModel>) -> Seq<Seq<char>>
    decreases users.len(),
{
    if users.len() == 0 {
        Seq::empty()
    } else {
        let prev = homeservers_of(users.drop_last());
        let hs = users.last().homeserver;
        if prev.contains(hs) {
            prev
        } else {
            prev.push(hs)
        }
    }
}

pub open spec fn pairs_view(v: Seq<(String, String)>) -> Seq<(Seq<char>, Seq<char>)> {
    v.map_values(|p: (String, String)| (p.0@, p.1@))
}

fn members_on(db: &Db, hs: &String) -> (r: Vec<(String, String)>)
    ensures
        pairs_view(r@) == members_of(db@.users, hs@),
{
    let mut r: Vec<(String, String)> = Vec::new();
    let mut i: usize = 0;
    while i < db.users.len()
        invariant
            i <= db.users@.len(),
            pairs_view(r@) == members_of(db@.users.subrange(0, i as int), hs@),
        decreases db.users.len() - i,
    {
        let ghost pre = db@.users.subrange(0, i as int + 1);
        assert(pre.drop_last() =~= db@.users.subrange(0, i as int));
        assert(pre.last() == db@.users[i as int]);
        if db.users[i].homeserver_pk == *hs {
            let ghost before = r@;
            r.push((db.users[i].public_key.clone(), db.users[i].cursor.clone()));
            assert(pairs_view(r@) =~= pairs_view(before).push(
                (db@.users[i as int].key, db@.users[i as int].cursor),
            ));
        }
        i = i + 1;
    }
    assert(db@.users.subrange(0, db@.users.len() as int) =~= db@.users);
    r
}

fn homeserver_list(db: &Db) -> (r: Vec<String>)
    ensures
        r@.map_values(|s: String| s@) == homeservers_of(db@.users),
{
    let mut r: Vec<String> = Vec::new();
    let mut i: usize = 0;
    while i < db.users.len()
        invariant
            i <= db.users@.len(),
            r@.map_values(|s: String| s@) == homeservers_of(db@.users.subrange(0, i as int)),
        decreases db.users.len() - i,
    {
        let ghost pre = db@.users.subrange(0, i as int + 1);
        assert(pre.drop_last() =~= db@.users.subrange(0, i as int));
        assert(pre.last() == db@.users[i as int]);
        let ghost seen = r@.map_values(|s: String| s@);
        let hs = &db.users[i].homeserver_pk;
        let mut k: usize = 0;
        let mut found = false;
        while k < r.len()
            invariant
                k <= r@.len(),
                seen == r@.map_values(|s: String| s@),
                found ==> seen.contains(hs@),
                !found ==> forall|j: int| 0 <= j < k ==> seen[j] != hs@,
            decreases r.len() - k,
        {
            if r[k] == *hs {
                assert(seen[k as int] == hs@);
                found = true;
            }
            k = k + 1;
        }
        if !found {
            let ghost before = r@;
            r.push(hs.clone());
            proof {
                lemma_views_push(before, *hs);
            }
            assert(r@.map_values(|s: String| s@) =~= seen.push(hs@));
        }
        i = i + 1;
    }
    assert(db@.users.subrange(0, db@.users.len() as int) =~= db@.users);
    r
}

/// The users grouped by homeserver: one group per homeserver, in order of
/// first appearance, each listing `(public_key, cursor)` in table order.
pub fn get_users_by_homeserver(db: &Db) -> (r: Vec<(String, Vec<(String, String)>)>)
    ensures
        r@.len() == homeservers_of(db@.users).len(),
        forall|i: int|
            0 <= i < r@.len() ==> {
                &&& (#[trigger] r@[i]).0@ == homeservers_of(db@.users)[i]
                &&& pairs_view(r@[i].1@) == members_of(db@.users, r@[i].0@)
            },
{
    let hss = homeserver_list(db);
    let mut r: Vec<(String, Vec<(String, String)>)> = Vec::new();
    let mut i: usize = 0;
    while i < hss.len()
        invariant
            i <= hss@.len(),
            hss@.map_values(|s: String| s@) == homeservers_of(db@.users),
            r@.len() == i,
            forall|j: int|
                0 <= j < i ==> {
                    &&& (#[trigger] r@[j]).0@ == homeservers_of(db@.users)[j]
                    &&& pairs_view(r@[j].1@) == members_of(db@.users, r@[j].0@)
                },
        decreases hss.len() - i,
    {
        let members = members_on(db, &hss[i]);
        assert(hss@[i as int]@ == homeservers_of(db@.users)[i as int]);
        r.push((hss[i].clone(), members));
        i = i + 1;
    }
    r
}

/// The full state of the cell at `(x, y)`, if it has been written.
pub fn get_cell(db: &Db, x: u32, y: u32) -> (r: Option<CanvasCell>)
    requires
        db@.wf(),
    ensures
        match r {
            Some(c) => db@.cell(x, y) == Some(c@),
            None => db@.cell(x, y) is None,
        },
{
    match find_cell(db, x, y) {
        None => None,
        Some(k) => {
            let c = &db.cells[k];
            Some(
                CanvasCell {
                    x: c.x,
                    y: c.y,
                    color: c.color,
                    user_pk: c.user_pk.clone(),
                    first_user_pk: c.first_user_pk.clone(),
                    placed_at: c.placed_at,
                    was_overwritten: c.was_overwritten,
                },
            )
        },
    }
}

} // verus!

verus! {

/// One past placement at a cell.
#[derive(Debug, Clone, PartialEq, Eq)]
pub struct PixelHistoryEntry {
    pub id: String,
    pub user_pk: String,
    pub color: u8,
    pub placed_at: i64,
}

/// A cell's current state and its most recent placements, newest first.
#[derive(Debug, Clone, PartialEq, Eq)]
pub struct PixelInfo {
    pub current: PixelState,
    pub history: Vec<PixelHistoryEntry>,
}

/// Longest history that `get_pixel_info` reports.
pub const HISTORY_LEN: usize = 10;

pub ghost struct HistoryModel {
    pub id: Seq<char>,
    pub user: Seq<char>,
    pub color: u8,
    pub placed_at: i64,
}

impl View for PixelHistoryEntry {
    type V = HistoryModel;

    open spec fn view(&self) -> HistoryModel {
        HistoryModel { id: self.id@, user: self.user_pk@, color: self.color, placed_at: self.placed_at }
    }
}

pub open spec fn history_of(e: EventModel) -> HistoryModel {
    HistoryModel { id: e.id, user: e.user, color: e.color, placed_at: e.placed_at }
}

pub open spec fn at(ev: Seq<EventModel>, q: int, x: u32, y: u32) -> bool {
    0 <= q < ev.len() && ev[q].x == x && ev[q].y == y
}

/// Log position `a` is more recent than `b`: placed later, or placed at the
/// same time and committed later.
pub open spec fn newer(ev: Seq<EventModel>, a: int, b: int) -> bool {
    ev[a].placed_at > ev[b].placed_at || (ev[a].placed_at == ev[b].placed_at && a > b)
}

/// `pos` lists log positions at `(x, y)` from the most recent down, with
/// nothing at `(x, y)` left out in between: every position at `(x, y)` that is
/// not listed is older than the last one listed.
pub open spec fn newest_first(ev: Seq<EventModel>, x: u32, y: u32, pos: Seq<int>) -> bool {
    &&& forall|i: int| 0 <= i < pos.len() ==> at(ev, #[trigger] pos[i], x, y)
    &&& forall|i: int, j: int| 0 <= i < j < pos.len() ==> newer(ev, #[trigger] pos[i], #[trigger] pos[j])
    &&& forall|q: int|
        #![trigger at(ev, q, x, y)]
        at(ev, q, x, y) && pos.len() > 0 && !newer(ev, pos.last(), q) ==> pos.contains(q)
}

/// The newest log position at `(x, y)` older than `bound` (any, without a bound).
fn newest_below(db: &Db, x: u32, y: u32, bound: Option<usize>) -> (r: Option<usize>)
    requires
        bound matches Some(b) ==> b < db@.events.len(),
    ensures
        match r {
            Some(k) => {
                &&& at(db@.events, k as int, x, y)
                &&& bound matches Some(b) ==> newer(db@.events, b as int, k as int)
                &&& forall|q: int|
                    at(db@.events, q, x, y) && (bound matches Some(b) ==> newer(db@.events, b as int, q))
                        ==> q == k || newer(db@.events, k as int, q)
            },
            None => forall|q: int|
                at(db@.events, q, x, y) ==> (bound matches Some(b) && !newer(db@.events, b as int, q)),
        },
{
    let ghost ev = db@.events;
    let ghost below = |q: int| (bound matches Some(b) ==> newer(ev, b as int, q));
    let mut best: Option<usize> = None;
    let mut i: usize = 0;
    while i < db.events.len()
        invariant
            ev == db@.events,
            i <= ev.len(),
            bound matches Some(b) ==> b < ev.len(),
            below == (|q: int| (bound matches Some(b) ==> newer(ev, b as int, q))),
            best matches Some(k) ==> k < i && at(ev, k as int, x, y) && below(k as int),
            best matches Some(k) ==> forall|q: int|
                0 <= q < i && at(ev, q, x, y) && below(q) ==> q == k || newer(ev, k as int, q),
            best is None ==> forall|q: int| 0 <= q < i && at(ev, q, x, y) ==> !below(q),
        decreases db.events.len() - i,
    {
        let e = &db.events[i];
        assert(ev[i as int] == e@);
        if e.x == x && e.y == y {
            assert(at(ev, i as int, x, y));
            let is_below = match bound {
                None => true,
                Some(b) => {
                    let eb = &db.events[b];
                    assert(ev[b as int] == eb@);
                    eb.placed_at > e.placed_at || (eb.placed_at == e.placed_at && b > i)
                },
            };
            assert(is_below == below(i as int));
            if is_below {
                let better = match best {
                    None => true,
                    Some(k) => {
                        let ek = &db.events[k];
                        assert(ev[k as int] == ek@);
                        e.placed_at > ek.placed_at || (e.placed_at == ek.placed_at && i > k)
                    },
                };
                if better {
                    let ghost prev = best;
                    best = Some(i);
                    assert forall|q: int|
                        0 <= q < i + 1 && at(ev, q, x, y) && below(q) implies q == i || newer(ev, i as int, q) by {
                        if q < i {
                            if let Some(k) = prev {
                                assert(q == k || newer(ev, k as int, q));
                                assert(newer(ev, i as int, k as int));
                            }
                        }
                    }
                } else {
                    assert(best matches Some(k) && newer(ev, k as int, i as int));
                }
            }
        }
        i = i + 1;
    }
    best
}

/// The cell at `(x, y)` and its `HISTORY_LEN` most recent placements, newest
/// first; `None` for a cell that was never written.
pub fn get_pixel_info(db: &Db, x: u32, y: u32) -> (r: Option<PixelInfo>)
    requires
        db@.wf(),
    ensures
        match r {
            None => db@.cell(x, y) is None,
            Some(info) => {
                &&& db@.cell(x, y) is Some
                &&& info.current@ == state_of_cell(db@.cell(x, y)->0)
                &&& info.history@.len() <= HISTORY_LEN
                &&& exists|pos: Seq<int>|
                    {
                        &&& pos.len() == info.history@.len()
                        &&& newest_first(db@.events, x, y, pos)
                        &&& forall|i: int|
                            0 <= i < pos.len() ==> (#[trigger] info.history@[i])@ == history_of(
                                db@.events[pos[i]],
                            )
                        &&& pos.len() < HISTORY_LEN ==> forall|q: int|
                            at(db@.events, q, x, y) ==> pos.contains(q)
                    }
            },
        },
{
    let cell = match find_cell(db, x, y) {
        None => return None,
        Some(k) => pixel_state_of(&db.cells[k]),
    };
    let mut history: Vec<PixelHistoryEntry> = Vec::new();
    let ghost mut pos: Seq<int> = Seq::empty();
    let mut last: Option<usize> = None;
    let mut done = false;
    while !done && history.len() < HISTORY_LEN
        invariant
            pos.len() == history@.len(),
            history@.len() <= HISTORY_LEN,
            newest_first(db@.events, x, y, pos),
            forall|i: int| 0 <= i < pos.len() ==> (#[trigger] history@[i])@ == history_of(db@.events[pos[i]]),
            match last {
                None => pos.len() == 0,
                Some(b) => pos.len() > 0 && pos.last() == b as int && b < db@.events.len(),
            },
            done ==> forall|q: int| at(db@.events, q, x, y) ==> pos.contains(q),
        decreases HISTORY_LEN - history@.len() + if done { 0int } else { 1int },
    {
        match newest_below(db, x, y, last) {
            None => {
                done = true;
                assert forall|q: int| at(db@.events, q, x, y) implies pos.contains(q) by {
                    assert(pos.len() > 0 && !newer(db@.events, pos.last(), q));
                }
            },
            Some(k) => {
                let e = &db.events[k];
                history.push(
                    PixelHistoryEntry {
                        id: e.id.clone(),
                        user_pk: e.user_pk.clone(),
                        color: e.color,
                        placed_at: e.placed_at,
                    },
                );
                let ghost old_pos = pos;
                proof {
                    pos = pos.push(k as int);
                    assert forall|i: int, j: int| 0 <= i < j < pos.len() implies newer(
                        db@.events,
                        #[trigger] pos[i],
                        #[trigger] pos[j],
                    ) by {
                        if j == pos.len() - 1 && i < j - 1 {
                            assert(newer(db@.events, old_pos[i], old_pos.last()));
                        }
                    }
                    assert forall|q: int|
                        #![trigger at(db@.events, q, x, y)]
                        at(db@.events, q, x, y) && !newer(db@.events, pos.last(), q) implies pos.contains(q) by {
                        if q == k as int {
                            assert(pos[pos.len() - 1] == q);
                        } else if old_pos.len() > 0 && !newer(db@.events, old_pos.last(), q) {
                            let i = choose|i: int| 0 <= i < old_pos.len() && old_pos[i] == q;
                            assert(pos[i] == q);
                        } else {
                            assert(newer(db@.events, k as int, q));
                        }
                    }
                    assert forall|i: int| 0 <= i < pos.len() implies (#[trigger] history@[i])@ == history_of(
                        db@.events[pos[i]],
                    ) by {
                        if i < old_pos.len() {
                            assert(pos[i] == old_pos[i]);
                        }
                    }
                }
                last = Some(k);
            },
        }
    }
    Some(PixelInfo { current: cell, history })
}

} // verus!

verus! {

/// The row of user `public_key`, if admitted.
pub fn get_user(db: &Db, public_key: &str) -> (r: Option<User>)
    requires
        db@.wf(),
    ensures
        match r {
            Some(u) => exists|i: int| 0 <= i < db@.users.len() && #[trigger] db@.users[i] == u@ && u@.key == public_key@,
            None => !db@.has_user(public_key@),
        },
{
    let key = public_key.to_owned();
    let mut i: usize = 0;
    while i < db.users.len()
        invariant
            key@ == public_key@,
            i <= db.users@.len(),
            forall|j: int| 0 <= j < i ==> db@.users[j].key != key@,
        decreases db.users.len() - i,
    {
        let u = &db.users[i];
        if u.public_key == key {
            let r = User {
                public_key: u.public_key.clone(),
                homeserver_pk: u.homeserver_pk.clone(),
                cursor: u.cursor.clone(),
                created_at: u.created_at,
            };
            assert(db@.users[i as int] == r@);
            return Some(r);
        }
        i = i + 1;
    }
    None
}

} // verus!
