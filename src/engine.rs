//! The state of the engine: the active room, its directory and log, the
//! session of the external site, and the cache of resolved rooms.
use crate::config::{Cookies, RoomConfig, cookie_clean};
use crate::degree::Degree;
use crate::error::CSError;
use crate::recorder::{RecordLog, record_effect, should_record};
use crate::rooms::{ResolveStart, RoomInfo, RoomInfoCache, resolved_for, room_parts};
use crate::time::Timestamp;
use crate::log::lines_of;
use vstd::prelude::*;

verus! {

/// The active room with its directory and log, swapped as one unit.
pub struct Engine {
    room: RoomConfig,
    room_dir: String,
    log: RecordLog,
    cookies: Cookies,
    cache: RoomInfoCache,
}

impl Engine {
    pub closed spec fn room(&self) -> RoomConfig {
        self.room
    }

    pub closed spec fn dir(&self) -> Seq<char> {
        self.room_dir@
    }

    pub closed spec fn spec_log(&self) -> RecordLog {
        self.log
    }

    pub closed spec fn spec_cookies(&self) -> Cookies {
        self.cookies
    }

    pub closed spec fn spec_cache(&self) -> RoomInfoCache {
        self.cache
    }

    pub open spec fn wf(&self) -> bool {
        self.spec_log().wf() && self.spec_cache().wf()
    }

    /// An engine on `room`, whose directory is `room_dir` and whose log is
    /// `log`, with no session and no resolved room.
    pub fn new(room: RoomConfig, room_dir: String, log: RecordLog) -> (r: Engine)
        requires
            log.wf(),
        ensures
            r.wf(),
            r.room() == room,
            r.dir() == room_dir@,
            r.spec_log() == log,
            r.spec_cookies().cookie@.len() == 0,
            r.spec_cookies().j_session_id@.len() == 0,
            r.spec_cookies().x_csrf_token@.len() == 0,
            r.spec_cache().entries().len() == 0,
    {
        Engine { room, room_dir, log, cookies: Cookies::empty(), cache: RoomInfoCache::new() }
    }

    pub fn room_config(&self) -> (r: &RoomConfig)
        ensures
            *r == self.room(),
    {
        &self.room
    }

    pub fn room_dir(&self) -> (r: &String)
        ensures
            r@ == self.dir(),
    {
        &self.room_dir
    }

    pub fn log(&self) -> (r: &RecordLog)
        ensures
            *r == self.spec_log(),
    {
        &self.log
    }

    pub fn cookies(&self) -> (r: &Cookies)
        ensures
            *r == self.spec_cookies(),
    {
        &self.cookies
    }

    /// Makes `room`, `room_dir` and `log` active together; they are prepared
    /// beforehand, so that a failed preparation leaves the previous room active.
    pub fn switch_room(&mut self, room: RoomConfig, room_dir: String, log: RecordLog)
        requires
            old(self).wf(),
            log.wf(),
        ensures
            final(self).wf(),
            final(self).room() == room,
            final(self).dir() == room_dir@,
            final(self).spec_log() == log,
            final(self).spec_cookies() == old(self).spec_cookies(),
            final(self).spec_cache() == old(self).spec_cache(),
    {
        self.room = room;
        self.room_dir = room_dir;
        self.log = log;
    }

    /// Forgets the room; the directory and the log stay until another room
    /// is chosen.
    pub fn clear_room(&mut self)
        ensures
            final(self).room().room_no@.len() == 0,
            final(self).room().elcarea == 0,
            final(self).room().elcbuis@.len() == 0,
            final(self).dir() == old(self).dir(),
            final(self).spec_log() == old(self).spec_log(),
            final(self).spec_cookies() == old(self).spec_cookies(),
            final(self).spec_cache() == old(self).spec_cache(),
    {
        self.room = RoomConfig::empty();
    }

    /// Takes a new session, cleaned for use in a `Cookie` header.
    pub fn set_cookies(&mut self, cookies: &Cookies)
        ensures
            final(self).spec_cookies().cookie@ == cookie_clean(cookies.cookie@),
            final(self).spec_cookies().j_session_id@ == cookie_clean(cookies.j_session_id@),
            final(self).spec_cookies().x_csrf_token@ == cookies.x_csrf_token@,
            final(self).room() == old(self).room(),
            final(self).dir() == old(self).dir(),
            final(self).spec_log() == old(self).spec_log(),
            final(self).spec_cache() == old(self).spec_cache(),
    {
        self.cookies = cookies.sanitize();
    }

    /// Records a value in the active log (see `RecordLog::record`).
    pub fn record(&mut self, d: Degree, now: Timestamp) -> (r: Option<Vec<u8>>)
        requires
            old(self).wf(),
            d.wf(),
            now.wf(),
        ensures
            final(self).wf(),
            r is Some <==> should_record(old(self).spec_log().last(), d),
            (lines_of(final(self).spec_log().text()), final(self).spec_log().last())
                == record_effect(
                lines_of(old(self).spec_log().text()),
                old(self).spec_log().last(),
                d,
                now,
            ),
            match r {
                Some(delta) => final(self).spec_log().text() == old(self).spec_log().text()
                    + delta@,
                None => final(self).spec_log().text() == old(self).spec_log().text(),
            },
            final(self).room() == old(self).room(),
            final(self).dir() == old(self).dir(),
    {
        self.log.record(d, now)
    }

    /// Puts in place the log of a committed archive.
    pub fn replace_log(&mut self, log: RecordLog)
        requires
            old(self).wf(),
            log.wf(),
        ensures
            final(self).wf(),
            final(self).spec_log() == log,
            final(self).room() == old(self).room(),
            final(self).dir() == old(self).dir(),
            final(self).spec_cookies() == old(self).spec_cookies(),
            final(self).spec_cache() == old(self).spec_cache(),
    {
        self.log = log;
    }

    /// Starts resolving the active room (see `RoomInfoCache::begin_resolve`).
    pub fn begin_resolve(&self) -> (r: Result<ResolveStart, CSError>)
        ensures
            !self.room().spec_is_invalid() && self.spec_cache().spec_get(self.room()) is Some
                ==> r == Ok::<ResolveStart, CSError>(
                ResolveStart::Cached(self.spec_cache().spec_get(self.room()).unwrap()),
            ),
            self.room().spec_is_invalid() || self.spec_cache().spec_get(self.room()) is None
                ==> match r {
                Ok(ResolveStart::Fetch(l)) => l.of(self.room()),
                Ok(ResolveStart::Cached(_)) => false,
                Err(e) => e == CSError::InvalidRoomConfig && room_parts(self.room().room_no@) is None,
            },
            self.wf() ==> (r matches Ok(ResolveStart::Cached(info)) ==> resolved_for(
                self.room(),
                info,
            )),
    {
        self.cache.begin_resolve(&self.room)
    }

    /// Keeps the names resolved for `room` (see `RoomInfoCache::remember`).
    pub fn remember_room_info(&mut self, room: RoomConfig, info: RoomInfo) -> (r: RoomInfo)
        requires
            old(self).wf(),
            resolved_for(room, info),
        ensures
            final(self).wf(),
            resolved_for(room, r),
            final(self).spec_cache().spec_get(room) == Some(r),
            old(self).spec_cache().spec_get(room) matches Some(kept) ==> r == kept,
            old(self).spec_cache().spec_get(room) is None ==> r == info,
            final(self).room() == old(self).room(),
            final(self).dir() == old(self).dir(),
            final(self).spec_log() == old(self).spec_log(),
    {
        self.cache.remember(room, info)
    }
}

} // verus!
