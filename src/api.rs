use vstd::prelude::*;
use crate::config::{regen_window, CanvasConfig};
use crate::db::{add_user, count_in_window, count_recent_placements, user_exists, Db, DbModel, EventModel, UserModel};
use crate::error::IndexerError;
use crate::sse::{after, first_slash, has_prefix, starts_with_at};
use crate::text::chars_of;

verus! {

/// `s` up to its first `/`.
pub open spec fn up_to_slash(s: Seq<char>) -> Seq<char> {
    match first_slash(s) {
        Some(k) => s.subrange(0, k),
        None => s,
    }
}

/// The host of an `https://` or `http://` URL; anything else as it is.
pub open spec fn homeserver_id_of(s: Seq<char>) -> Seq<char> {
    if has_prefix(s, "https://"@) {
        up_to_slash(after(s, "https://"@.len()))
    } else if has_prefix(s, "http://"@) {
        up_to_slash(after(s, "http://"@.len()))
    } else {
        s
    }
}

fn host_after<'a>(s: &'a str, t: &Vec<char>, p: usize) -> (r: &'a str)
    requires
        t@ == s@,
        p <= t@.len(),
    ensures
        r@ == up_to_slash(after(s@, p as nat)),
{
    let ghost rest = after(s@, p as nat);
    let mut k: usize = p;
    while k < t.len() && t[k] != '/'
        invariant
            t@ == s@,
            p <= k <= t@.len(),
            rest == after(s@, p as nat),
            first_slash(rest) == match first_slash(t@.subrange(k as int, t@.len() as int)) {
                Some(j) => Some(j + (k - p)),
                None => None::<int>,
            },
        decreases t.len() - k,
    {
        assert(t@.subrange(k as int, t@.len() as int).drop_first() =~= t@.subrange(
            k as int + 1,
            t@.len() as int,
        ));
        k = k + 1;
    }
    if k == t.len() {
        assert(t@.subrange(k as int, t@.len() as int) =~= Seq::<char>::empty());
        assert(rest =~= t@.subrange(p as int, k as int));
    } else {
        assert(first_slash(rest) == Some((k - p) as int));
        assert(rest.subrange(0, (k - p) as int) =~= t@.subrange(p as int, k as int));
    }
    s.substring_char(p, k)
}

/// Normalizes a homeserver URL to its host identifier.
pub fn extract_homeserver_id(url_or_pk: &str) -> (r: &str)
    ensures
        r@ == homeserver_id_of(url_or_pk@),
{
    let t = chars_of(url_or_pk);
    assert(t@.subrange(0, t@.len() as int) =~= url_or_pk@);
    if starts_with_at(&t, 0, t.len(), "https://") {
        let n = "https://".unicode_len();
        host_after(url_or_pk, &t, n)
    } else if starts_with_at(&t, 0, t.len(), "http://") {
        let n = "http://".unicode_len();
        host_after(url_or_pk, &t, n)
    } else {
        url_or_pk
    }
}

/// How an admission request ended.
#[derive(PartialEq, Eq, Structural, Debug, Clone, Copy)]
pub enum Admission {
    /// The user was already known; nothing changed.
    AlreadyPresent,
    /// The user was added.
    Created,
}

/// Admits a user at clock reading `now_secs` (seconds since the Unix epoch),
/// given what discovery found as the user's homeserver.
pub fn admit_public_key(
    db: &mut Db,
    public_key: &str,
    homeserver: Option<&str>,
    now_secs: i64,
) -> (r: Result<Admission, IndexerError>)
    requires
        old(db)@.wf(),
    ensures
        final(db)@.wf(),
        final(db)@.events == old(db)@.events,
        final(db)@.cells == old(db)@.cells,
        final(db)@.resizes == old(db)@.resizes,
        old(db)@.has_user(public_key@) ==> r == Ok::<Admission, IndexerError>(Admission::AlreadyPresent)
            && final(db)@ == old(db)@,
        !old(db)@.has_user(public_key@) ==> match homeserver {
            None => r == Err::<Admission, IndexerError>(IndexerError::HomeserverNotFound)
                && final(db)@ == old(db)@,
            Some(hs) => r == Ok::<Admission, IndexerError>(Admission::Created) && final(db)@.users
                == old(db)@.users.push(
                UserModel {
                    key: public_key@,
                    homeserver: homeserver_id_of(hs@),
                    cursor: Seq::empty(),
                    created_at: now_secs,
                },
            ),
        },
{
    if user_exists(db, public_key) {
        return Ok(Admission::AlreadyPresent);
    }
    match homeserver {
        None => Err(IndexerError::HomeserverNotFound),
        Some(hs) => {
            add_user(db, public_key, extract_homeserver_id(hs), now_secs);
            Ok(Admission::Created)
        },
    }
}

/// A user's credit balance.
#[derive(PartialEq, Eq, Structural, Debug, Clone, Copy)]
pub struct CreditStatus {
    pub credits: u32,
    pub max_credits: u32,
    pub next_credit_in_seconds: Option<u64>,
}

/// Earliest placement time of `user` in `ev` later than `cutoff`.
pub open spec fn earliest_after(ev: Seq<EventModel>, user: Seq<char>, cutoff: int) -> Option<i64>
    decreases ev.len(),
{
    if ev.len() == 0 {
        None
    } else {
        let prev = earliest_after(ev.drop_last(), user, cutoff);
        let e = ev.last();
        if e.user != user || e.placed_at <= cutoff {
            prev
        } else {
            match prev {
                Some(t) if t <= e.placed_at => Some(t),
                _ => Some(e.placed_at),
            }
        }
    }
}

/// The credits left at `now`, and, when some are spent, the whole seconds until
/// the earliest placement of the window leaves it.
pub open spec fn credit_status_of(db: DbModel, cfg: CanvasConfig, user: Seq<char>, now: i64) -> CreditStatus {
    let w = regen_window(cfg) as int;
    let recent = count_in_window(db.events, user, now as int, w);
    let credits: u32 = if recent >= cfg.max_credits {
        0
    } else {
        (cfg.max_credits - recent) as u32
    };
    let next = if credits < cfg.max_credits {
        match earliest_after(db.events, user, now - w) {
            Some(t) => {
                let remaining = t + w - now;
                Some(
                    (if remaining > 0 {
                        remaining / 1_000_000
                    } else {
                        0
                    }) as u64,
                )
            },
            None => None,
        }
    } else {
        None
    };
    CreditStatus { credits, max_credits: cfg.max_credits, next_credit_in_seconds: next }
}

fn earliest_placement_after(db: &Db, user_pk: &str, cutoff: i128) -> (r: Option<i64>)
    ensures
        r == earliest_after(db@.events, user_pk@, cutoff as int),
{
    let ev = crate::db::events_of(db);
    let key = user_pk.to_owned();
    let mut best: Option<i64> = None;
    let mut i: usize = 0;
    while i < ev.len()
        invariant
            key@ == user_pk@,
            i <= ev@.len(),
            ev@.map_values(|e: crate::db::PixelEvent| e@) == db@.events,
            best == earliest_after(db@.events.subrange(0, i as int), user_pk@, cutoff as int),
        decreases ev.len() - i,
    {
        let ghost pre = db@.events.subrange(0, i as int + 1);
        assert(pre.drop_last() =~= db@.events.subrange(0, i as int));
        assert(pre.last() == ev@[i as int]@);
        if ev[i].user_pk == key && (ev[i].placed_at as i128) > cutoff {
            let t = ev[i].placed_at;
            best = match best {
                Some(b) if b <= t => Some(b),
                _ => Some(t),
            };
        }
        i = i + 1;
    }
    assert(db@.events.subrange(0, db@.events.len() as int) =~= db@.events);
    best
}

/// A user's credits at clock reading `now`.
pub fn credit_status(db: &Db, config: &CanvasConfig, user_pk: &str, now: i64) -> (r: CreditStatus)
    ensures
        r == credit_status_of(db@, *config, user_pk@, now),
{
    let w = config.regen_us();
    let recent = count_recent_placements(db, user_pk, now, w);
    let credits: u32 = if recent >= config.max_credits as u64 {
        0
    } else {
        config.max_credits - recent as u32
    };
    let next = if credits < config.max_credits {
        let cutoff: i128 = now as i128 - w as i128;
        match earliest_placement_after(db, user_pk, cutoff) {
            Some(t) => {
                let remaining: i128 = t as i128 + w as i128 - now as i128;
                Some(
                    (if remaining > 0 {
                        remaining / 1_000_000
                    } else {
                        0
                    }) as u64,
                )
            },
            None => None,
        }
    } else {
        None
    };
    CreditStatus { credits, max_credits: config.max_credits, next_credit_in_seconds: next }
}

} // verus!
