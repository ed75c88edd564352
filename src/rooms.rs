//! Room names of the external directory, and the cache of resolved rooms.
use crate::config::RoomConfig;
use crate::error::CSError;
use crate::text::{
    after_char, before_char, find_char, push_signed_decimal, signed_decimal, split_once_char,
};
use vstd::prelude::*;

verus! {

#[derive(Clone, Debug, PartialEq, Eq)]
pub struct Area {
    pub area_id: String,
    pub area_name: String,
}

#[derive(Clone, Debug, PartialEq, Eq)]
pub struct District {
    pub district_id: String,
    pub district_name: String,
}

#[derive(Clone, Debug, PartialEq, Eq)]
pub struct Building {
    pub building_id: String,
    pub building_name: String,
}

#[derive(Clone, Debug, PartialEq, Eq)]
pub struct Floor {
    pub floor_id: String,
    pub floor_name: String,
}

#[derive(Clone, Debug, PartialEq, Eq)]
pub struct Room {
    pub room_id: String,
    pub room_name: String,
}

/// Answer of the area and district list.
#[derive(Clone, Debug, PartialEq, Eq)]
pub struct Districts {
    pub areas: Vec<Area>,
    pub districts: Vec<District>,
    pub buildings: Vec<Building>,
    pub floors: Vec<Floor>,
    pub rooms: Vec<Room>,
}

/// Answer of the buildings of a district.
#[derive(Clone, Debug, PartialEq, Eq)]
pub struct Buildings {
    pub buildings: Vec<Building>,
}

/// Answer of the floors of a building.
#[derive(Clone, Debug, PartialEq, Eq)]
pub struct Floors {
    pub floors: Vec<Floor>,
}

/// Answer of the rooms of a floor.
#[derive(Clone, Debug, PartialEq, Eq)]
pub struct Rooms {
    pub rooms: Vec<Room>,
}

/// The readable names of a room.
#[derive(Clone, Debug, PartialEq, Eq)]
pub struct RoomInfo {
    pub area: Area,
    pub district: District,
    pub building: Building,
    pub floor: Floor,
    pub room: Room,
}

/// The parts of a room code `room_district_unused_floor` that the lookups
/// use: room name, district id and floor id (the floor id is all that follows
/// the third `_`).
pub open spec fn room_parts(s: Seq<char>) -> Option<(Seq<char>, Seq<char>, Seq<char>)> {
    let r1 = after_char(s, '_');
    let r2 = after_char(r1, '_');
    if find_char(s, '_') < s.len() && find_char(r1, '_') < r1.len() && find_char(r2, '_')
        < r2.len() {
        Some((before_char(s, '_'), before_char(r1, '_'), after_char(r2, '_')))
    } else {
        None
    }
}

/// What the four lookups of a room ask for.
#[derive(Clone, Debug, PartialEq, Eq)]
pub struct RoomLookup {
    pub room_name: String,
    pub district_id: String,
    pub floor_id: String,
    pub building_id: String,
    pub area_id: String,
}

impl RoomLookup {
    pub open spec fn of(self, id: RoomConfig) -> bool {
        room_parts(id.room_no@) == Some((self.room_name@, self.district_id@, self.floor_id@))
            && self.building_id@ == id.elcbuis@ && self.area_id@ == signed_decimal(
            id.elcarea as int,
        )
    }
}

/// First position in `ids` equal to `id`, or the length of `ids`.
pub open spec fn first_match(ids: Seq<Seq<char>>, id: Seq<char>) -> int {
    if exists|i: int| 0 <= i < ids.len() && ids[i] == id {
        choose|i: int|
            0 <= i < ids.len() && ids[i] == id && forall|j: int| 0 <= j < i ==> ids[j] != id
    } else {
        ids.len() as int
    }
}

fn copy_district(d: &District) -> (r: District)
    ensures
        r == *d,
{
    District { district_id: d.district_id.clone(), district_name: d.district_name.clone() }
}

fn copy_building(b: &Building) -> (r: Building)
    ensures
        r == *b,
{
    Building { building_id: b.building_id.clone(), building_name: b.building_name.clone() }
}

fn copy_floor(f: &Floor) -> (r: Floor)
    ensures
        r == *f,
{
    Floor { floor_id: f.floor_id.clone(), floor_name: f.floor_name.clone() }
}

fn copy_room(x: &Room) -> (r: Room)
    ensures
        r == *x,
{
    Room { room_id: x.room_id.clone(), room_name: x.room_name.clone() }
}

fn copy_area(a: &Area) -> (r: Area)
    ensures
        r == *a,
{
    Area { area_id: a.area_id.clone(), area_name: a.area_name.clone() }
}

fn copy_info(i: &RoomInfo) -> (r: RoomInfo)
    ensures
        r == *i,
{
    RoomInfo {
        area: copy_area(&i.area),
        district: copy_district(&i.district),
        building: copy_building(&i.building),
        floor: copy_floor(&i.floor),
        room: copy_room(&i.room),
    }
}

/// Whether the first `i` keys differ from `id`, and the key at `i` is `id`.
pub open spec fn is_first(ids: Seq<Seq<char>>, id: Seq<char>, i: int) -> bool {
    0 <= i < ids.len() && ids[i] == id && forall|j: int| 0 <= j < i ==> ids[j] != id
}

/// The first district whose id is `id`.
pub fn find_district(list: &Vec<District>, id: &str) -> (r: Result<District, CSError>)
    ensures
        match r {
            Ok(d) => exists|i: int|
                is_first(list@.map_values(|x: District| x.district_id@), id@, i) && d == list@[i],
            Err(e) => e == CSError::RoomInfoNotFound && forall|i: int|
                0 <= i < list@.len() ==> list@[i].district_id@ != id@,
        },
{
    let mut i: usize = 0;
    while i < list.len()
        invariant
            i <= list.len(),
            forall|j: int| 0 <= j < i ==> list@[j].district_id@ != id@,
        decreases list.len() - i,
    {
        if str_eq(list[i].district_id.as_str(), id) {
            assert(is_first(list@.map_values(|x: District| x.district_id@), id@, i as int));
            return Ok(copy_district(&list[i]));
        }
        i = i + 1;
    }
    Err(CSError::RoomInfoNotFound)
}

/// The first building whose id is `id`.
pub fn find_building(list: &Vec<Building>, id: &str) -> (r: Result<Building, CSError>)
    ensures
        match r {
            Ok(b) => exists|i: int|
                is_first(list@.map_values(|x: Building| x.building_id@), id@, i) && b == list@[i],
            Err(e) => e == CSError::RoomInfoNotFound && forall|i: int|
                0 <= i < list@.len() ==> list@[i].building_id@ != id@,
        },
{
    let mut i: usize = 0;
    while i < list.len()
        invariant
            i <= list.len(),
            forall|j: int| 0 <= j < i ==> list@[j].building_id@ != id@,
        decreases list.len() - i,
    {
        if str_eq(list[i].building_id.as_str(), id) {
            assert(is_first(list@.map_values(|x: Building| x.building_id@), id@, i as int));
            return Ok(copy_building(&list[i]));
        }
        i = i + 1;
    }
    Err(CSError::RoomInfoNotFound)
}

/// The first floor whose id is `id`.
pub fn find_floor(list: &Vec<Floor>, id: &str) -> (r: Result<Floor, CSError>)
    ensures
        match r {
            Ok(f) => exists|i: int|
                is_first(list@.map_values(|x: Floor| x.floor_id@), id@, i) && f == list@[i],
            Err(e) => e == CSError::RoomInfoNotFound && forall|i: int|
                0 <= i < list@.len() ==> list@[i].floor_id@ != id@,
        },
{
    let mut i: usize = 0;
    while i < list.len()
        invariant
            i <= list.len(),
            forall|j: int| 0 <= j < i ==> list@[j].floor_id@ != id@,
        decreases list.len() - i,
    {
        if str_eq(list[i].floor_id.as_str(), id) {
            assert(is_first(list@.map_values(|x: Floor| x.floor_id@), id@, i as int));
            return Ok(copy_floor(&list[i]));
        }
        i = i + 1;
    }
    Err(CSError::RoomInfoNotFound)
}

/// The first room whose name is `name`.
pub fn find_room(list: &Vec<Room>, name: &str) -> (r: Result<Room, CSError>)
    ensures
        match r {
            Ok(x) => exists|i: int|
                is_first(list@.map_values(|x: Room| x.room_name@), name@, i) && x == list@[i],
            Err(e) => e == CSError::RoomInfoNotFound && forall|i: int|
                0 <= i < list@.len() ==> list@[i].room_name@ != name@,
        },
{
    let mut i: usize = 0;
    while i < list.len()
        invariant
            i <= list.len(),
            forall|j: int| 0 <= j < i ==> list@[j].room_name@ != name@,
        decreases list.len() - i,
    {
        if str_eq(list[i].room_name.as_str(), name) {
            assert(is_first(list@.map_values(|x: Room| x.room_name@), name@, i as int));
            return Ok(copy_room(&list[i]));
        }
        i = i + 1;
    }
    Err(CSError::RoomInfoNotFound)
}

/// The school of the answer: its last area.
pub fn area_of(d: &Districts) -> (r: Result<Area, CSError>)
    ensures
        match r {
            Ok(a) => d.areas@.len() > 0 && a == d.areas@.last(),
            Err(e) => e == CSError::RoomInfoNotFound && d.areas@.len() == 0,
        },
{
    if d.areas.len() == 0 {
        Err(CSError::RoomInfoNotFound)
    } else {
        Ok(copy_area(&d.areas[d.areas.len() - 1]))
    }
}

/// Equality of two strings, character by character.
pub fn str_eq(a: &str, b: &str) -> (r: bool)
    ensures
        r == (a@ == b@),
{
    let n = a.unicode_len();
    if n != b.unicode_len() {
        return false;
    }
    let mut i: usize = 0;
    while i < n
        invariant
            i <= n,
            n == a@.len(),
            n == b@.len(),
            forall|j: int| 0 <= j < i ==> a@[j] == b@[j],
        decreases n - i,
    {
        if a.get_char(i) != b.get_char(i) {
            return false;
        }
        i = i + 1;
    }
    assert(a@ =~= b@);
    true
}

/// The lookups a room code asks for, or `InvalidRoomConfig` when the code
/// does not have four `_`-separated parts.
pub fn room_lookup(id: &RoomConfig) -> (r: Result<RoomLookup, CSError>)
    ensures
        match r {
            Ok(l) => l.of(*id),
            Err(e) => e == CSError::InvalidRoomConfig && room_parts(id.room_no@) is None,
        },
{
    let (room_name, r1) = match split_once_char(id.room_no.as_str(), '_') {
        Some(p) => p,
        None => return Err(CSError::InvalidRoomConfig),
    };
    let (district_id, r2) = match split_once_char(r1.as_str(), '_') {
        Some(p) => p,
        None => return Err(CSError::InvalidRoomConfig),
    };
    let floor_id = match split_once_char(r2.as_str(), '_') {
        Some((_, f)) => f,
        None => return Err(CSError::InvalidRoomConfig),
    };
    let mut area_id = String::new();
    push_signed_decimal(id.elcarea as i64, &mut area_id);
    proof {
        assert(area_id@ =~= signed_decimal(id.elcarea as int));
    }
    Ok(RoomLookup { room_name, district_id, floor_id, building_id: id.elcbuis.clone(), area_id })
}

/// The first element whose key is `id`, where `key` gives each element's key.
pub open spec fn first_with<T>(list: Seq<T>, key: spec_fn(T) -> Seq<char>, id: Seq<char>) -> Option<T> {
    if exists|i: int| is_first(list.map_values(key), id, i) {
        Some(list[choose|i: int| is_first(list.map_values(key), id, i)])
    } else {
        None
    }
}

impl RoomLookup {
    /// The names of the room from the four answers: the first district,
    /// building and floor whose ids match, the first room whose name
    /// matches, and the last area; `RoomInfoNotFound` when one is missing.
    pub fn assemble(
        &self,
        districts: &Districts,
        buildings: &Buildings,
        floors: &Floors,
        rooms: &Rooms,
    ) -> (r: Result<RoomInfo, CSError>)
        ensures
            r matches Ok(info) ==> {
                &&& info.district.district_id@ == self.district_id@
                &&& info.building.building_id@ == self.building_id@
                &&& info.floor.floor_id@ == self.floor_id@
                &&& info.room.room_name@ == self.room_name@
            },
            match r {
                Ok(info) => {
                    &&& first_with(districts.districts@, |x: District| x.district_id@, self.district_id@) == Some(info.district)
                    &&& first_with(buildings.buildings@, |x: Building| x.building_id@, self.building_id@) == Some(info.building)
                    &&& first_with(floors.floors@, |x: Floor| x.floor_id@, self.floor_id@) == Some(info.floor)
                    &&& first_with(rooms.rooms@, |x: Room| x.room_name@, self.room_name@) == Some(info.room)
                    &&& districts.areas@.len() > 0
                    &&& info.area == districts.areas@.last()
                },
                Err(e) => {
                    &&& e == CSError::RoomInfoNotFound
                    &&& {
                        ||| first_with(districts.districts@, |x: District| x.district_id@, self.district_id@) is None
                        ||| first_with(buildings.buildings@, |x: Building| x.building_id@, self.building_id@) is None
                        ||| first_with(floors.floors@, |x: Floor| x.floor_id@, self.floor_id@) is None
                        ||| first_with(rooms.rooms@, |x: Room| x.room_name@, self.room_name@) is None
                        ||| districts.areas@.len() == 0
                    }
                },
            },
    {
        let district = match find_district(&districts.districts, self.district_id.as_str()) {
            Ok(d) => d,
            Err(e) => return Err(e),
        };
        let building = match find_building(&buildings.buildings, self.building_id.as_str()) {
            Ok(b) => b,
            Err(e) => return Err(e),
        };
        let floor = match find_floor(&floors.floors, self.floor_id.as_str()) {
            Ok(f) => f,
            Err(e) => return Err(e),
        };
        let room = match find_room(&rooms.rooms, self.room_name.as_str()) {
            Ok(x) => x,
            Err(e) => return Err(e),
        };
        let area = match area_of(districts) {
            Ok(a) => a,
            Err(e) => return Err(e),
        };
        Ok(RoomInfo { area, district, building, floor, room })
    }
}

/// The first entry whose key is `id`.
pub open spec fn cache_lookup(entries: Seq<(RoomConfig, RoomInfo)>, id: RoomConfig) -> Option<
    RoomInfo,
>
    decreases entries.len(),
{
    if entries.len() == 0 {
        None
    } else if entries[0].0.same_as(&id) {
        Some(entries[0].1)
    } else {
        cache_lookup(entries.drop_first(), id)
    }
}

/// Resolved rooms, kept for the life of the process; an entry is never
/// replaced.
pub struct RoomInfoCache {
    entries: Vec<(RoomConfig, RoomInfo)>,
}

/// Where a resolution starts: from the cache, with no lookup, or with the
/// lookups to make.
pub enum ResolveStart {
    Cached(RoomInfo),
    Fetch(RoomLookup),
}

/// The names `info` were resolved for the identity `id`: the room name,
/// district id and floor id come from its room code, and the building id is
/// its building code.
pub open spec fn resolved_for(id: RoomConfig, info: RoomInfo) -> bool {
    &&& room_parts(id.room_no@) == Some(
        (info.room.room_name@, info.district.district_id@, info.floor.floor_id@),
    )
    &&& info.building.building_id@ == id.elcbuis@
}

proof fn lemma_lookup_resolved(entries: Seq<(RoomConfig, RoomInfo)>, id: RoomConfig)
    requires
        forall|k: int| 0 <= k < entries.len() ==> resolved_for(#[trigger] entries[k].0, entries[k].1),
    ensures
        cache_lookup(entries, id) matches Some(info) ==> resolved_for(id, info),
    decreases entries.len(),
{
    if entries.len() > 0 && !entries[0].0.same_as(&id) {
        assert forall|k: int| 0 <= k < entries.drop_first().len() implies resolved_for(
            #[trigger] entries.drop_first()[k].0,
            entries.drop_first()[k].1,
        ) by {
            assert(entries.drop_first()[k] == entries[k + 1]);
        }
        lemma_lookup_resolved(entries.drop_first(), id);
    }
}

impl RoomInfoCache {
    pub closed spec fn entries(&self) -> Seq<(RoomConfig, RoomInfo)> {
        self.entries@
    }

    /// Every entry holds names resolved for its key.
    pub open spec fn wf(&self) -> bool {
        forall|k: int|
            0 <= k < self.entries().len() ==> resolved_for(
                #[trigger] self.entries()[k].0,
                self.entries()[k].1,
            )
    }

    /// What the cache holds for `id`.
    pub open spec fn spec_get(&self, id: RoomConfig) -> Option<RoomInfo> {
        cache_lookup(self.entries(), id)
    }

    pub fn new() -> (r: RoomInfoCache)
        ensures
            r.entries().len() == 0,
            r.wf(),
    {
        RoomInfoCache { entries: Vec::new() }
    }

    pub fn get(&self, id: &RoomConfig) -> (r: Option<RoomInfo>)
        ensures
            r == self.spec_get(*id),
    {
        let mut i: usize = 0;
        proof {
            assert(self.entries@.subrange(0, self.entries@.len() as int) =~= self.entries@);
        }
        while i < self.entries.len()
            invariant
                i <= self.entries@.len(),
                cache_lookup(self.entries@, *id) == cache_lookup(
                    self.entries@.subrange(i as int, self.entries@.len() as int),
                    *id,
                ),
            decreases self.entries.len() - i,
        {
            let ghost rest = self.entries@.subrange(i as int, self.entries@.len() as int);
            if self.entries[i].0.same(id) {
                return Some(copy_info(&self.entries[i].1));
            }
            proof {
                assert(rest.drop_first() =~= self.entries@.subrange(
                    i as int + 1,
                    self.entries@.len() as int,
                ));
            }
            i = i + 1;
        }
        proof {
            assert(self.entries@.subrange(i as int, self.entries@.len() as int) =~= Seq::<
                (RoomConfig, RoomInfo),
            >::empty());
        }
        None
    }

    /// Keeps `info` for `id` unless an entry for `id` exists; the result is
    /// the entry the cache holds afterwards.
    pub fn remember(&mut self, id: RoomConfig, info: RoomInfo) -> (r: RoomInfo)
        requires
            old(self).wf(),
            resolved_for(id, info),
        ensures
            final(self).wf(),
            resolved_for(id, r),
            final(self).spec_get(id) == Some(r),
            old(self).spec_get(id) matches Some(kept) ==> r == kept && final(self).entries()
                == old(self).entries(),
            old(self).spec_get(id) is None ==> r == info,
            forall|k: RoomConfig|
                !k.same_as(&id) ==> #[trigger] final(self).spec_get(k) == old(self).spec_get(k),
    {
        proof {
            lemma_lookup_resolved(self.entries@, id);
        }
        match self.get(&id) {
            Some(kept) => kept,
            None => {
                let ghost before = self.entries@;
                let kept = copy_info(&info);
                self.entries.push((id, info));
                proof {
                    lemma_lookup_push(before, id, kept);
                    assert forall|k: int| 0 <= k < self.entries@.len() implies resolved_for(
                        #[trigger] self.entries@[k].0,
                        self.entries@[k].1,
                    ) by {
                        if k < before.len() {
                            assert(self.entries@[k] == before[k]);
                        }
                    }
                }
                kept
            },
        }
    }

    /// Starts resolving `id`: a valid identity already cached resolves with
    /// no lookup; any other identity needs the lookups of its room code.
    pub fn begin_resolve(&self, id: &RoomConfig) -> (r: Result<ResolveStart, CSError>)
        ensures
            !id.spec_is_invalid() && self.spec_get(*id) is Some ==> r == Ok::<
                ResolveStart,
                CSError,
            >(ResolveStart::Cached(self.spec_get(*id).unwrap())),
            id.spec_is_invalid() || self.spec_get(*id) is None ==> match r {
                Ok(ResolveStart::Fetch(l)) => l.of(*id),
                Ok(ResolveStart::Cached(_)) => false,
                Err(e) => e == CSError::InvalidRoomConfig && room_parts(id.room_no@) is None,
            },
            self.wf() ==> (r matches Ok(ResolveStart::Cached(info)) ==> resolved_for(*id, info)),
    {
        proof {
            if self.wf() {
                lemma_lookup_resolved(self.entries@, *id);
            }
        }
        if !id.is_invalid() {
            if let Some(info) = self.get(id) {
                return Ok(ResolveStart::Cached(info));
            }
        }
        match room_lookup(id) {
            Ok(l) => Ok(ResolveStart::Fetch(l)),
            Err(e) => Err(e),
        }
    }
}

proof fn lemma_lookup_push(entries: Seq<(RoomConfig, RoomInfo)>, id: RoomConfig, info: RoomInfo)
    requires
        cache_lookup(entries, id) is None,
    ensures
        cache_lookup(entries.push((id, info)), id) == Some(info),
        forall|k: RoomConfig|
            !k.same_as(&id) ==> #[trigger] cache_lookup(entries.push((id, info)), k)
                == cache_lookup(entries, k),
    decreases entries.len(),
{
    let pushed = entries.push((id, info));
    if entries.len() > 0 {
        assert(pushed.drop_first() =~= entries.drop_first().push((id, info)));
        assert(pushed[0] == entries[0]);
        lemma_lookup_push(entries.drop_first(), id, info);
        assert forall|k: RoomConfig| !k.same_as(&id) implies #[trigger] cache_lookup(pushed, k)
            == cache_lookup(entries, k) by {
            if !entries[0].0.same_as(&k) {
                assert(cache_lookup(entries.drop_first().push((id, info)), k) == cache_lookup(
                    entries.drop_first(),
                    k,
                ));
            }
        }
    } else {
        assert(pushed.drop_first() =~= Seq::<(RoomConfig, RoomInfo)>::empty());
        assert forall|k: RoomConfig| !k.same_as(&id) implies #[trigger] cache_lookup(pushed, k)
            == cache_lookup(entries, k) by {
            assert(!pushed[0].0.same_as(&k));
            assert(cache_lookup(Seq::<(RoomConfig, RoomInfo)>::empty(), k) is None);
            assert(cache_lookup(pushed, k) == cache_lookup(pushed.drop_first(), k));
        }
    }
}

/// An entry of the cache stays as it is whatever is remembered after it,
/// so a valid identity, once resolved, is served from the cache by every
/// later `begin_resolve`, with no lookup.
pub proof fn lemma_cached_stays(
    entries: Seq<(RoomConfig, RoomInfo)>,
    id: RoomConfig,
    key: RoomConfig,
    info: RoomInfo,
)
    requires
        cache_lookup(entries, id) is Some,
    ensures
        cache_lookup(entries.push((key, info)), id) == cache_lookup(entries, id),
    decreases entries.len(),
{
    if !entries[0].0.same_as(&id) {
        assert(entries.push((key, info)).drop_first() =~= entries.drop_first().push((key, info)));
        lemma_cached_stays(entries.drop_first(), id, key, info);
    }
}

} // verus!
