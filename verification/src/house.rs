//! The topology of the house: rooms and the device names they hold.
//!
//! A [`House`] owns an ordered collection of rooms, each holding a
//! set of device names. Room names are unique in the house and
//! device names are unique within their room; both are enumerated in
//! ascending lexicographic order. The topology is independent of the
//! device registry: the two meet only in [`House::generate_report`],
//! which resolves every device through a [`GetDevice`] capability
//! and degrades a failed resolution to an inline error line.

use vstd::prelude::*;

use crate::text::{
    count_char, lemma_count_char_absent, lemma_count_char_concat, lemma_lex_irrefl,
    lemma_lex_trans, lemma_lex_trichotomy, lex_lt, newline_free, str_lt,
};

verus! {

/// The ways a topology operation can fail.
#[derive(Debug, PartialEq, Eq, Structural)]
pub enum HouseError {
    /// `add_room` was given a name that already exists.
    RoomNameClash,
    /// `add_device` was given a name already used in that room.
    DeviceNameClash,
    /// `add_device` referenced a room that does not exist.
    NoRoomName,
    /// Reserved for removal semantics that require the device to
    /// exist; `remove_device` reports absence as `false` instead.
    NoDeviceName,
}

impl HouseError {
    /// A short description of the error.
    pub fn message(&self) -> (r: &'static str)
        ensures
            *self is RoomNameClash ==> r@ == "Room Name Clash"@,
            *self is DeviceNameClash ==> r@ == "Device Name Clash"@,
            *self is NoRoomName ==> r@ == "No such Room"@,
            *self is NoDeviceName ==> r@ == "No such Device"@,
    {
        match self {
            HouseError::RoomNameClash => "Room Name Clash",
            HouseError::DeviceNameClash => "Device Name Clash",
            HouseError::NoRoomName => "No such Room",
            HouseError::NoDeviceName => "No such Device",
        }
    }
}

pub type HouseResult = Result<(), HouseError>;

/// The capability every device kind implements: produce a short text
/// describing the device's current state. It never fails.
pub trait ReportState {
    /// The state text as a mathematical value.
    spec fn spec_state(&self) -> Seq<char>;

    /// The state text of the device.
    fn report_state(&self) -> (r: String)
        ensures
            r@ == self.spec_state(),
    ;
}

/// The lookup capability the report generator consumes: resolve a
/// (room, device) key to the state text of the device registered
/// under it, if any.
pub trait GetDevice {
    /// The state text registered under a key, if any.
    spec fn device_state(&self, room: Seq<char>, device: Seq<char>) -> Option<Seq<char>>;

    /// Resolves a key to the state text of the device registered
    /// under that exact key, or `None` if nothing is registered.
    fn get_device(&self, room: &str, device: &str) -> (r: Option<String>)
        ensures
            (match r {
                Some(s) => self.device_state(room@, device@) == Some(s@),
                None => self.device_state(room@, device@) is None,
            }),
    ;
}

/// One room: its name and the device names it holds, kept in
/// ascending lexicographic order.
#[derive(Debug)]
struct RoomEntry {
    name: String,
    devices: Vec<String>,
}

/// The mathematical value of a topology: the rooms in enumeration
/// order, each a name paired with its device names in enumeration
/// order.
pub type RoomsView = Seq<(Seq<char>, Seq<Seq<char>>)>;

/// The house topology: rooms, each holding a set of device names.
#[derive(Debug)]
pub struct House {
    rooms: Vec<RoomEntry>,
}

spec fn entry_view(e: RoomEntry) -> (Seq<char>, Seq<Seq<char>>) {
    (e.name@, e.devices.deep_view())
}

impl View for House {
    type V = RoomsView;

    closed spec fn view(&self) -> RoomsView {
        self.rooms@.map_values(|e: RoomEntry| entry_view(e))
    }
}

/// The room names of a topology, in enumeration order.
pub open spec fn room_names(v: RoomsView) -> Seq<Seq<char>> {
    v.map_values(|p: (Seq<char>, Seq<Seq<char>>)| p.0)
}

/// Whether a topology holds a room of the given name.
pub open spec fn has_room(v: RoomsView, name: Seq<char>) -> bool {
    exists|i: int| 0 <= i < v.len() && v[i].0 == name
}

/// The position of the room of the given name.
pub open spec fn room_idx(v: RoomsView, name: Seq<char>) -> int {
    choose|i: int| 0 <= i < v.len() && v[i].0 == name
}

/// The device names of the room of the given name, in enumeration
/// order.
pub open spec fn devices_of(v: RoomsView, name: Seq<char>) -> Seq<Seq<char>> {
    v[room_idx(v, name)].1
}

/// A list of names in strictly ascending lexicographic order; such a
/// list holds no name twice.
pub open spec fn sorted_names(s: Seq<Seq<char>>) -> bool {
    forall|i: int, j: int| 0 <= i < j < s.len() ==> lex_lt(s[i], s[j])
}

/// Well-formedness of a topology: rooms are sorted by name and each
/// room's device names are sorted, which makes both unique.
pub open spec fn wf_rooms(v: RoomsView) -> bool {
    &&& sorted_names(room_names(v))
    &&& forall|k: int| 0 <= k < v.len() ==> sorted_names(#[trigger] v[k].1)
}

/// In a sorted topology the room of a given name sits at exactly one
/// position, and `room_idx` names it.
pub proof fn lemma_room_idx_unique(v: RoomsView, i: int)
    requires
        sorted_names(room_names(v)),
        0 <= i < v.len(),
    ensures
        room_idx(v, v[i].0) == i,
        has_room(v, v[i].0),
    decreases v.len(),
{
    let name = v[i].0;
    assert(room_names(v)[i] == name);
    assert(has_room(v, name));
    let j = room_idx(v, name);
    if i != j {
        assert(room_names(v)[j] == name);
        if i < j {
            assert(lex_lt(room_names(v)[i], room_names(v)[j]));
        } else {
            assert(lex_lt(room_names(v)[j], room_names(v)[i]));
        }
        lemma_lex_irrefl(name);
    }
}

/// A topology with one more, empty, room.
pub open spec fn with_room(v: RoomsView, i: int, name: Seq<char>) -> RoomsView {
    v.insert(i, (name, Seq::<Seq<char>>::empty()))
}

/// Inserting an absent name at its sorted position keeps the
/// topology well formed, adds exactly that room with no devices, and
/// leaves every other room as it was.
proof fn lemma_insert_room(v: RoomsView, i: int, name: Seq<char>)
    requires
        wf_rooms(v),
        0 <= i <= v.len(),
        forall|k: int| 0 <= k < i ==> lex_lt(#[trigger] v[k].0, name),
        i < v.len() ==> !lex_lt(v[i].0, name) && v[i].0 != name,
    ensures
        !has_room(v, name),
        wf_rooms(with_room(v, i, name)),
        forall|m: Seq<char>|
            #[trigger] has_room(with_room(v, i, name), m) <==> has_room(v, m) || m == name,
        devices_of(with_room(v, i, name), name) == Seq::<Seq<char>>::empty(),
        forall|m: Seq<char>|
            m != name && has_room(v, m) ==> #[trigger] devices_of(with_room(v, i, name), m)
                == devices_of(v, m),
{
    let entry = (name, Seq::<Seq<char>>::empty());
    let v2 = v.insert(i, entry);
    v.insert_ensures(i, entry);

    assert forall|k: int| i <= k < v.len() implies lex_lt(name, #[trigger] v[k].0) by {
        lemma_lex_trichotomy(v[i].0, name);
        if k > i {
            assert(room_names(v)[i] == v[i].0);
            assert(room_names(v)[k] == v[k].0);
            assert(lex_lt(room_names(v)[i], room_names(v)[k]));
            lemma_lex_trans(name, v[i].0, v[k].0);
        }
    }
    assert forall|k: int| 0 <= k < v.len() implies #[trigger] v[k].0 != name by {
        lemma_lex_irrefl(name);
    }
    assert(!has_room(v, name));

    assert forall|p: int, q: int|
        0 <= p < q < room_names(v2).len() implies lex_lt(
        #[trigger] room_names(v2)[p],
        #[trigger] room_names(v2)[q],
    ) by {
        assert(room_names(v2)[p] == v2[p].0);
        assert(room_names(v2)[q] == v2[q].0);
        if p < i && q < i {
            assert(lex_lt(room_names(v)[p], room_names(v)[q]));
        } else if p < i && q == i {
        } else if p < i && q > i {
            if p == q - 1 {
            } else {
                assert(lex_lt(room_names(v)[p], room_names(v)[q - 1]));
            }
        } else if p == i {
            assert(lex_lt(name, v[q - 1].0));
        } else {
            assert(lex_lt(room_names(v)[p - 1], room_names(v)[q - 1]));
        }
    }
    assert(wf_rooms(v2)) by {
        assert forall|k: int| 0 <= k < v2.len() implies sorted_names(#[trigger] v2[k].1) by {
            if k < i {
                assert(v2[k].1 == v[k].1);
            } else if k > i {
                assert(v2[k].1 == v[k - 1].1);
            }
        }
    }

    assert forall|m: Seq<char>|
        #[trigger] has_room(v2, m) <==> has_room(v, m) || m == name by {
        if has_room(v2, m) {
            let k = room_idx(v2, m);
            assert(0 <= k < v2.len() && v2[k].0 == m);
            if k < i {
                assert(v[k].0 == m);
            } else if k > i {
                assert(v[k - 1].0 == m);
            }
        }
        if has_room(v, m) {
            let k = room_idx(v, m);
            assert(0 <= k < v.len() && v[k].0 == m);
            if k < i {
                assert(v2[k].0 == m);
            } else {
                assert(v2[k + 1].0 == m);
            }
        }
        if m == name {
            assert(v2[i].0 == m);
        }
    }

    lemma_room_idx_unique(v2, i);
    assert(devices_of(v2, name) == Seq::<Seq<char>>::empty());

    assert forall|m: Seq<char>| m != name && has_room(v, m) implies #[trigger] devices_of(
        v2,
        m,
    ) == devices_of(v, m) by {
        let j = room_idx(v, m);
        assert(0 <= j < v.len() && v[j].0 == m);
        lemma_room_idx_unique(v, j);
        let j2: int = if j < i {
            j
        } else {
            j + 1
        };
        assert(v2[j2] == v[j]);
        lemma_room_idx_unique(v2, j2);
    }
}

impl House {
    /// Well-formedness: what every operation preserves.
    pub open spec fn wf(&self) -> bool {
        wf_rooms(self@)
    }
}

impl Default for House {
    /// An empty house: no rooms at all.
    fn default() -> (h: House)
        ensures
            h@ == Seq::<(Seq<char>, Seq<Seq<char>>)>::empty(),
            h.wf(),
    {
        let h = House { rooms: Vec::new() };
        proof {
            assert(h@ =~= Seq::<(Seq<char>, Seq<Seq<char>>)>::empty());
        }
        h
    }
}

/// The position of the first room whose name is not below `key`, in
/// a scan from the front.
fn room_lower_bound(rooms: &Vec<RoomEntry>, key: &str) -> (i: usize)
    ensures
        i <= rooms@.len(),
        forall|k: int| 0 <= k < i ==> lex_lt(#[trigger] rooms@[k].name@, key@),
        i < rooms@.len() ==> !lex_lt(rooms@[i as int].name@, key@),
{
    let n = rooms.len();
    let mut i: usize = 0;
    while i < n
        invariant
            n == rooms@.len(),
            i <= n,
            forall|k: int| 0 <= k < i ==> lex_lt(#[trigger] rooms@[k].name@, key@),
        decreases n - i,
    {
        if !str_lt(rooms[i].name.as_str(), key) {
            return i;
        }
        i += 1;
    }
    i
}

/// The position of the room named `key`, if one exists.
fn room_position(rooms: &Vec<RoomEntry>, key: &String) -> (r: Option<usize>)
    ensures
        (match r {
            Some(i) => i < rooms@.len() && rooms@[i as int].name@ == key@,
            None => forall|k: int| 0 <= k < rooms@.len() ==> #[trigger] rooms@[k].name@ != key@,
        }),
{
    let n = rooms.len();
    let mut i: usize = 0;
    while i < n
        invariant
            n == rooms@.len(),
            i <= n,
            forall|k: int| 0 <= k < i ==> #[trigger] rooms@[k].name@ != key@,
        decreases n - i,
    {
        if rooms[i].name == *key {
            return Some(i);
        }
        i += 1;
    }
    None
}

/// Removing a room keeps the topology well formed, drops exactly
/// that room, and leaves every other room as it was.
proof fn lemma_remove_room(v: RoomsView, i: int)
    requires
        wf_rooms(v),
        0 <= i < v.len(),
    ensures
        wf_rooms(v.remove(i)),
        forall|m: Seq<char>|
            #[trigger] has_room(v.remove(i), m) <==> has_room(v, m) && m != v[i].0,
        forall|m: Seq<char>|
            m != v[i].0 && has_room(v, m) ==> #[trigger] devices_of(v.remove(i), m)
                == devices_of(v, m),
{
    let v2 = v.remove(i);
    v.remove_ensures(i);

    assert forall|p: int, q: int|
        0 <= p < q < room_names(v2).len() implies lex_lt(
        #[trigger] room_names(v2)[p],
        #[trigger] room_names(v2)[q],
    ) by {
        let p2: int = if p < i {
            p
        } else {
            p + 1
        };
        let q2: int = if q < i {
            q
        } else {
            q + 1
        };
        assert(room_names(v2)[p] == v2[p].0 && v2[p].0 == v[p2].0);
        assert(room_names(v2)[q] == v2[q].0 && v2[q].0 == v[q2].0);
        assert(lex_lt(room_names(v)[p2], room_names(v)[q2]));
    }
    assert(wf_rooms(v2)) by {
        assert forall|k: int| 0 <= k < v2.len() implies sorted_names(#[trigger] v2[k].1) by {
            if k < i {
                assert(v2[k].1 == v[k].1);
            } else {
                assert(v2[k].1 == v[k + 1].1);
            }
        }
    }

    assert forall|m: Seq<char>|
        #[trigger] has_room(v2, m) <==> has_room(v, m) && m != v[i].0 by {
        lemma_room_idx_unique(v, i);
        if has_room(v2, m) {
            let k = room_idx(v2, m);
            assert(0 <= k < v2.len() && v2[k].0 == m);
            let k2: int = if k < i {
                k
            } else {
                k + 1
            };
            assert(v[k2].0 == m);
            lemma_room_idx_unique(v, k2);
        }
        if has_room(v, m) && m != v[i].0 {
            let k = room_idx(v, m);
            assert(0 <= k < v.len() && v[k].0 == m);
            if k < i {
                assert(v2[k].0 == m);
            } else {
                assert(v2[k - 1].0 == m);
            }
        }
    }

    assert forall|m: Seq<char>| m != v[i].0 && has_room(v, m) implies #[trigger] devices_of(
        v2,
        m,
    ) == devices_of(v, m) by {
        let j = room_idx(v, m);
        assert(0 <= j < v.len() && v[j].0 == m);
        lemma_room_idx_unique(v, j);
        let j2: int = if j < i {
            j
        } else {
            j - 1
        };
        assert(v2[j2] == v[j]);
        lemma_room_idx_unique(v2, j2);
    }
}

/// Replacing the device names of one room with another sorted list
/// keeps the topology well formed and leaves every other room, and
/// the room names, as they were.
proof fn lemma_update_devices(v: RoomsView, i: int, d: Seq<Seq<char>>)
    requires
        wf_rooms(v),
        0 <= i < v.len(),
        sorted_names(d),
    ensures
        wf_rooms(v.update(i, (v[i].0, d))),
        room_names(v.update(i, (v[i].0, d))) == room_names(v),
        forall|m: Seq<char>| #[trigger] has_room(v.update(i, (v[i].0, d)), m) <==> has_room(v, m),
        devices_of(v.update(i, (v[i].0, d)), v[i].0) == d,
        forall|m: Seq<char>|
            m != v[i].0 && has_room(v, m) ==> #[trigger] devices_of(v.update(i, (v[i].0, d)), m)
                == devices_of(v, m),
{
    let v2 = v.update(i, (v[i].0, d));
    assert(room_names(v2) =~= room_names(v));
    assert(wf_rooms(v2)) by {
        assert forall|k: int| 0 <= k < v2.len() implies sorted_names(#[trigger] v2[k].1) by {
            if k != i {
                assert(v2[k].1 == v[k].1);
            }
        }
    }
    assert forall|m: Seq<char>|
        #[trigger] has_room(v2, m) <==> has_room(v, m) by {
        if has_room(v2, m) {
            let k = room_idx(v2, m);
            assert(v[k].0 == m);
        }
        if has_room(v, m) {
            let k = room_idx(v, m);
            assert(v2[k].0 == m);
        }
    }
    lemma_room_idx_unique(v2, i);
    assert(devices_of(v2, v[i].0) == d);
    assert forall|m: Seq<char>| m != v[i].0 && has_room(v, m) implies #[trigger] devices_of(
        v2,
        m,
    ) == devices_of(v, m) by {
        let j = room_idx(v, m);
        assert(0 <= j < v.len() && v[j].0 == m);
        lemma_room_idx_unique(v, j);
        assert(v2[j] == v[j]);
        lemma_room_idx_unique(v2, j);
    }
}

/// Inserting an absent device name at its sorted position keeps the
/// list sorted and adds exactly that name.
proof fn lemma_insert_name(d: Seq<Seq<char>>, j: int, name: Seq<char>)
    requires
        sorted_names(d),
        0 <= j <= d.len(),
        forall|k: int| 0 <= k < j ==> lex_lt(#[trigger] d[k], name),
        j < d.len() ==> !lex_lt(d[j], name) && d[j] != name,
    ensures
        !d.contains(name),
        sorted_names(d.insert(j, name)),
        forall|x: Seq<char>| #[trigger] d.insert(j, name).contains(x) <==> d.contains(x) || x == name,
{
    let d2 = d.insert(j, name);
    d.insert_ensures(j, name);

    assert forall|k: int| j <= k < d.len() implies lex_lt(name, #[trigger] d[k]) by {
        lemma_lex_trichotomy(d[j], name);
        if k > j {
            lemma_lex_trans(name, d[j], d[k]);
        }
    }
    assert forall|k: int| 0 <= k < d.len() implies #[trigger] d[k] != name by {
        lemma_lex_irrefl(name);
    }
    assert(!d.contains(name));

    assert forall|p: int, q: int| 0 <= p < q < d2.len() implies lex_lt(
        #[trigger] d2[p],
        #[trigger] d2[q],
    ) by {
        if p < j && q > j {
            assert(d2[p] == d[p] && d2[q] == d[q - 1]);
        }
    }

    assert forall|x: Seq<char>|
        #[trigger] d2.contains(x) <==> d.contains(x) || x == name by {
        if d2.contains(x) {
            let k = choose|k: int| 0 <= k < d2.len() && d2[k] == x;
            if k < j {
                assert(d[k] == x);
            } else if k > j {
                assert(d[k - 1] == x);
            }
        }
        if d.contains(x) {
            let k = choose|k: int| 0 <= k < d.len() && d[k] == x;
            if k < j {
                assert(d2[k] == x);
            } else {
                assert(d2[k + 1] == x);
            }
        }
        if x == name {
            assert(d2[j] == x);
        }
    }
}

/// Removing one device name keeps the list sorted and drops exactly
/// that name.
proof fn lemma_remove_name(d: Seq<Seq<char>>, j: int)
    requires
        sorted_names(d),
        0 <= j < d.len(),
    ensures
        sorted_names(d.remove(j)),
        forall|x: Seq<char>| #[trigger] d.remove(j).contains(x) <==> d.contains(x) && x != d[j],
{
    let d2 = d.remove(j);
    d.remove_ensures(j);

    assert forall|p: int, q: int| 0 <= p < q < d2.len() implies lex_lt(
        #[trigger] d2[p],
        #[trigger] d2[q],
    ) by {
        let p2: int = if p < j {
            p
        } else {
            p + 1
        };
        let q2: int = if q < j {
            q
        } else {
            q + 1
        };
        assert(d2[p] == d[p2] && d2[q] == d[q2]);
    }

    assert forall|x: Seq<char>|
        #[trigger] d2.contains(x) <==> d.contains(x) && x != d[j] by {
        if d2.contains(x) {
            let k = choose|k: int| 0 <= k < d2.len() && d2[k] == x;
            let k2: int = if k < j {
                k
            } else {
                k + 1
            };
            assert(d[k2] == x);
            if x == d[j] {
                if k2 < j {
                    assert(lex_lt(d[k2], d[j]));
                } else {
                    assert(lex_lt(d[j], d[k2]));
                }
                lemma_lex_irrefl(x);
            }
        }
        if d.contains(x) && x != d[j] {
            let k = choose|k: int| 0 <= k < d.len() && d[k] == x;
            if k < j {
                assert(d2[k] == x);
            } else {
                assert(d2[k - 1] == x);
            }
        }
    }
}

/// The position of the first device name not below `key`, in a scan
/// from the front.
fn name_lower_bound(devs: &Vec<String>, key: &str) -> (j: usize)
    ensures
        j <= devs@.len(),
        forall|k: int| 0 <= k < j ==> lex_lt(#[trigger] devs@[k]@, key@),
        j < devs@.len() ==> !lex_lt(devs@[j as int]@, key@),
{
    let n = devs.len();
    let mut j: usize = 0;
    while j < n
        invariant
            n == devs@.len(),
            j <= n,
            forall|k: int| 0 <= k < j ==> lex_lt(#[trigger] devs@[k]@, key@),
        decreases n - j,
    {
        if !str_lt(devs[j].as_str(), key) {
            return j;
        }
        j += 1;
    }
    j
}

/// The position of the device name `key`, if one is present.
fn name_position(devs: &Vec<String>, key: &String) -> (r: Option<usize>)
    ensures
        (match r {
            Some(j) => j < devs@.len() && devs@[j as int]@ == key@,
            None => forall|k: int| 0 <= k < devs@.len() ==> #[trigger] devs@[k]@ != key@,
        }),
{
    let n = devs.len();
    let mut j: usize = 0;
    while j < n
        invariant
            n == devs@.len(),
            j <= n,
            forall|k: int| 0 <= k < j ==> #[trigger] devs@[k]@ != key@,
        decreases n - j,
    {
        if devs[j] == *key {
            return Some(j);
        }
        j += 1;
    }
    None
}

impl House {
    /// The value of each room slot is the view of the stored entry.
    proof fn view_facts(&self)
        ensures
            self@.len() == self.rooms@.len(),
            forall|k: int|
                0 <= k < self@.len() ==> #[trigger] self@[k] == entry_view(self.rooms@[k]),
    {
    }
}

impl House {
    /// Adds a room of the given name with no devices in it. Fails
    /// with `RoomNameClash`, changing nothing, exactly when the name
    /// is already taken.
    pub fn add_room(&mut self, unique_name: &str) -> (r: HouseResult)
        requires
            old(self).wf(),
        ensures
            final(self).wf(),
            has_room(old(self)@, unique_name@) ==> r == HouseResult::Err(
                HouseError::RoomNameClash,
            ) && final(self)@ == old(self)@,
            !has_room(old(self)@, unique_name@) ==> {
                &&& r == HouseResult::Ok(())
                &&& final(self)@.len() == old(self)@.len() + 1
                &&& forall|m: Seq<char>|
                    #[trigger] has_room(final(self)@, m) <==> has_room(old(self)@, m) || m
                        == unique_name@
                &&& devices_of(final(self)@, unique_name@) == Seq::<Seq<char>>::empty()
                &&& forall|m: Seq<char>|
                    m != unique_name@ && has_room(old(self)@, m) ==> #[trigger] devices_of(
                        final(self)@,
                        m,
                    ) == devices_of(old(self)@, m)
            },
    {
        let key = unique_name.to_owned();
        let i = room_lower_bound(&self.rooms, key.as_str());
        proof {
            assert(forall|k: int|
                0 <= k < self@.len() ==> #[trigger] self@[k] == entry_view(self.rooms@[k]));
        }
        if i < self.rooms.len() && self.rooms[i].name == key {
            proof {
                assert(self@[i as int].0 == unique_name@);
                assert(has_room(self@, unique_name@));
            }
            return Err(HouseError::RoomNameClash);
        }
        proof {
            lemma_insert_room(self@, i as int, unique_name@);
        }
        let ghost old_view = self@;
        let ghost old_rooms = self.rooms@;
        let entry = RoomEntry { name: key, devices: Vec::new() };
        let ghost ge = entry;
        proof {
            assert(ge.devices.deep_view() =~= Seq::<Seq<char>>::empty());
        }
        self.rooms.insert(i, entry);
        proof {
            old_rooms.insert_ensures(i as int, ge);
            old_view.insert_ensures(i as int, (unique_name@, Seq::<Seq<char>>::empty()));
            assert(self@ =~= with_room(old_view, i as int, unique_name@));
        }
        Ok(())
    }

    /// The device names of the room, or `None` if no room of that
    /// name exists. Read-only.
    pub fn get_room(&self, room_name: &str) -> (r: Option<&Vec<String>>)
        requires
            self.wf(),
        ensures
            (match r {
                Some(d) => has_room(self@, room_name@) && d.deep_view() == devices_of(
                    self@,
                    room_name@,
                ),
                None => !has_room(self@, room_name@),
            }),
    {
        proof {
            self.view_facts();
        }
        let key = room_name.to_owned();
        match room_position(&self.rooms, &key) {
            Some(i) => {
                proof {
                    assert(self@[i as int].0 == room_name@);
                    lemma_room_idx_unique(self@, i as int);
                }
                Some(&self.rooms[i].devices)
            },
            None => None,
        }
    }

    /// Removes the room and returns the device names it held, or
    /// `None` if no room of that name exists.
    pub fn remove_room(&mut self, room_name: &str) -> (r: Option<Vec<String>>)
        requires
            old(self).wf(),
        ensures
            final(self).wf(),
            (match r {
                Some(d) => {
                    &&& has_room(old(self)@, room_name@)
                    &&& d.deep_view() == devices_of(old(self)@, room_name@)
                    &&& final(self)@.len() == old(self)@.len() - 1
                    &&& forall|m: Seq<char>|
                        #[trigger] has_room(final(self)@, m) <==> has_room(old(self)@, m) && m
                            != room_name@
                    &&& forall|m: Seq<char>|
                        m != room_name@ && has_room(old(self)@, m) ==> #[trigger] devices_of(
                            final(self)@,
                            m,
                        ) == devices_of(old(self)@, m)
                },
                None => !has_room(old(self)@, room_name@) && final(self)@ == old(self)@,
            }),
    {
        proof {
            self.view_facts();
        }
        let key = room_name.to_owned();
        match room_position(&self.rooms, &key) {
            Some(i) => {
                proof {
                    assert(old(self)@[i as int].0 == room_name@);
                    lemma_room_idx_unique(old(self)@, i as int);
                    lemma_remove_room(old(self)@, i as int);
                    old(self)@.remove_ensures(i as int);
                }
                let e = self.rooms.remove(i);
                proof {
                    assert(self@ =~= old(self)@.remove(i as int));
                }
                Some(e.devices)
            },
            None => None,
        }
    }

    /// The room names, in ascending lexicographic order.
    pub fn get_room_name_list(&self) -> (r: Vec<String>)
        ensures
            r.deep_view() == room_names(self@),
    {
        proof {
            self.view_facts();
        }
        let n = self.rooms.len();
        let mut names: Vec<String> = Vec::new();
        let mut i: usize = 0;
        while i < n
            invariant
                n == self.rooms@.len(),
                i <= n,
                names@.len() == i,
                forall|k: int| 0 <= k < i ==> #[trigger] names@[k]@ == self.rooms@[k].name@,
            decreases n - i,
        {
            names.push(self.rooms[i].name.clone());
            i += 1;
        }
        proof {
            assert(names.deep_view() =~= room_names(self@));
        }
        names
    }

    /// Adds a device name to an existing room. Fails with
    /// `NoRoomName`, changing nothing, exactly when no room of that
    /// name exists, and with `DeviceNameClash`, changing nothing,
    /// exactly when the room already holds the device name.
    pub fn add_device(&mut self, room_name: &str, unique_name: &str) -> (r: HouseResult)
        requires
            old(self).wf(),
        ensures
            final(self).wf(),
            !has_room(old(self)@, room_name@) ==> r == HouseResult::Err(HouseError::NoRoomName)
                && final(self)@ == old(self)@,
            has_room(old(self)@, room_name@) && devices_of(old(self)@, room_name@).contains(
                unique_name@,
            ) ==> r == HouseResult::Err(HouseError::DeviceNameClash) && final(self)@ == old(
                self,
            )@,
            has_room(old(self)@, room_name@) && !devices_of(old(self)@, room_name@).contains(
                unique_name@,
            ) ==> {
                &&& r == HouseResult::Ok(())
                &&& room_names(final(self)@) == room_names(old(self)@)
                &&& forall|m: Seq<char>|
                    #[trigger] has_room(final(self)@, m) <==> has_room(old(self)@, m)
                &&& forall|x: Seq<char>|
                    #[trigger] devices_of(final(self)@, room_name@).contains(x) <==> devices_of(
                        old(self)@,
                        room_name@,
                    ).contains(x) || x == unique_name@
                &&& forall|m: Seq<char>|
                    m != room_name@ && has_room(old(self)@, m) ==> #[trigger] devices_of(
                        final(self)@,
                        m,
                    ) == devices_of(old(self)@, m)
            },
    {
        proof {
            self.view_facts();
        }
        let rkey = room_name.to_owned();
        let i = match room_position(&self.rooms, &rkey) {
            Some(i) => i,
            None => {
                return Err(HouseError::NoRoomName);
            },
        };
        proof {
            assert(old(self)@[i as int].0 == room_name@);
            lemma_room_idx_unique(old(self)@, i as int);
            assert(devices_of(old(self)@, room_name@) == self.rooms@[i as int].devices.deep_view());
        }
        let dkey = unique_name.to_owned();
        let j = name_lower_bound(&self.rooms[i].devices, dkey.as_str());
        let ghost devs = old(self)@[i as int].1;
        if j < self.rooms[i].devices.len() && self.rooms[i].devices[j] == dkey {
            proof {
                assert(devs[j as int] == unique_name@);
                assert(devs.contains(unique_name@));
            }
            return Err(HouseError::DeviceNameClash);
        }
        proof {
            assert(forall|k: int| 0 <= k < devs.len() ==> #[trigger] devs[k] == self.rooms@[
                i as int
            ].devices@[k]@);
            lemma_insert_name(devs, j as int, unique_name@);
            lemma_update_devices(old(self)@, i as int, devs.insert(j as int, unique_name@));
        }
        let ghost old_view = self@;
        let mut e = self.rooms.remove(i);
        let ghost old_devs_at = e.devices@;
        let ghost gd = dkey;
        e.devices.insert(j, dkey);
        proof {
            old_devs_at.insert_ensures(j as int, gd);
            assert(e.devices.deep_view() =~= devs.insert(j as int, unique_name@)) by {
                devs.insert_ensures(j as int, unique_name@);
            }
        }
        let ghost ge = e;
        self.rooms.insert(i, e);
        proof {
            self.rooms@.remove(i as int);
            assert(self@ =~= old_view.update(
                i as int,
                (room_name@, devs.insert(j as int, unique_name@)),
            )) by {
                old(self).rooms@.remove_ensures(i as int);
                old(self).rooms@.remove(i as int).insert_ensures(i as int, ge);
                assert(ge.name@ == room_name@);
            }
        }
        Ok(())
    }

    /// Removes a device name from a room. Returns whether a removal
    /// happened: `false`, not an error, when the room is absent or
    /// the device name was not in it.
    pub fn remove_device(&mut self, room_name: &str, device_name: &str) -> (r: bool)
        requires
            old(self).wf(),
        ensures
            final(self).wf(),
            r == (has_room(old(self)@, room_name@) && devices_of(old(self)@, room_name@).contains(
                device_name@,
            )),
            !r ==> final(self)@ == old(self)@,
            r ==> {
                &&& room_names(final(self)@) == room_names(old(self)@)
                &&& forall|m: Seq<char>|
                    #[trigger] has_room(final(self)@, m) <==> has_room(old(self)@, m)
                &&& forall|x: Seq<char>|
                    #[trigger] devices_of(final(self)@, room_name@).contains(x) <==> devices_of(
                        old(self)@,
                        room_name@,
                    ).contains(x) && x != device_name@
                &&& forall|m: Seq<char>|
                    m != room_name@ && has_room(old(self)@, m) ==> #[trigger] devices_of(
                        final(self)@,
                        m,
                    ) == devices_of(old(self)@, m)
            },
    {
        proof {
            self.view_facts();
        }
        let rkey = room_name.to_owned();
        let i = match room_position(&self.rooms, &rkey) {
            Some(i) => i,
            None => {
                return false;
            },
        };
        proof {
            assert(old(self)@[i as int].0 == room_name@);
            lemma_room_idx_unique(old(self)@, i as int);
        }
        let ghost devs = old(self)@[i as int].1;
        proof {
            assert(forall|k: int| 0 <= k < devs.len() ==> #[trigger] devs[k] == self.rooms@[
                i as int
            ].devices@[k]@);
        }
        let dkey = device_name.to_owned();
        let j = match name_position(&self.rooms[i].devices, &dkey) {
            Some(j) => j,
            None => {
                proof {
                    assert(!devs.contains(device_name@));
                }
                return false;
            },
        };
        proof {
            assert(devs[j as int] == device_name@);
            assert(devs.contains(device_name@));
            lemma_remove_name(devs, j as int);
            lemma_update_devices(old(self)@, i as int, devs.remove(j as int));
        }
        let ghost old_view = self@;
        let mut e = self.rooms.remove(i);
        let ghost old_devs_at = e.devices@;
        e.devices.remove(j);
        proof {
            old_devs_at.remove_ensures(j as int);
            assert(e.devices.deep_view() =~= devs.remove(j as int)) by {
                devs.remove_ensures(j as int);
            }
        }
        let ghost ge = e;
        self.rooms.insert(i, e);
        proof {
            assert(self@ =~= old_view.update(i as int, (room_name@, devs.remove(j as int)))) by {
                old(self).rooms@.remove_ensures(i as int);
                old(self).rooms@.remove(i as int).insert_ensures(i as int, ge);
                assert(ge.name@ == room_name@);
            }
            assert(devs.remove(j as int).contains(device_name@) == false);
        }
        true
    }

    /// The device names in a room, in ascending lexicographic order,
    /// or `None` if no room of that name exists.
    pub fn get_device_list_in_room(&self, room_name: &str) -> (r: Option<Vec<String>>)
        requires
            self.wf(),
        ensures
            (match r {
                Some(d) => has_room(self@, room_name@) && d.deep_view() == devices_of(
                    self@,
                    room_name@,
                ),
                None => !has_room(self@, room_name@),
            }),
    {
        proof {
            self.view_facts();
        }
        let key = room_name.to_owned();
        let i = match room_position(&self.rooms, &key) {
            Some(i) => i,
            None => {
                return None;
            },
        };
        proof {
            assert(self@[i as int].0 == room_name@);
            lemma_room_idx_unique(self@, i as int);
        }
        let devs = &self.rooms[i].devices;
        let n = devs.len();
        let mut out: Vec<String> = Vec::new();
        let mut k: usize = 0;
        while k < n
            invariant
                n == devs@.len(),
                k <= n,
                out@.len() == k,
                forall|p: int| 0 <= p < k ==> #[trigger] out@[p]@ == devs@[p]@,
            decreases n - k,
        {
            out.push(devs[k].clone());
            k += 1;
        }
        proof {
            assert(out.deep_view() =~= devices_of(self@, room_name@));
        }
        Some(out)
    }
}

/// Law: a room added by a successful `add_room` is present
/// afterwards. With the contract of `add_room`, a repeated call on
/// the same name must therefore fail with `RoomNameClash` and leave
/// the topology unchanged: each distinct name succeeds exactly once.
pub proof fn lemma_add_room_exactly_once(v0: RoomsView, v1: RoomsView, name: Seq<char>)
    requires
        forall|m: Seq<char>| #[trigger] has_room(v1, m) <==> has_room(v0, m) || m == name,
    ensures
        has_room(v1, name),
{
}

/// Law: a room removed by a successful `remove_room` is absent
/// afterwards. With the contract of `get_room`, a subsequent lookup
/// of the name must therefore report "not found".
pub proof fn lemma_removed_room_gone(v0: RoomsView, v1: RoomsView, name: Seq<char>)
    requires
        forall|m: Seq<char>| #[trigger] has_room(v1, m) <==> has_room(v0, m) && m != name,
    ensures
        !has_room(v1, name),
{
}

/// Law: in a well-formed topology the room names are in strictly
/// ascending lexicographic order, whatever the insertion order was.
/// With the contract of `get_room_name_list`, the returned list is
/// therefore sorted, and empty exactly on the empty topology.
pub proof fn lemma_room_list_sorted(v: RoomsView)
    requires
        wf_rooms(v),
    ensures
        sorted_names(room_names(v)),
        room_names(v).len() == v.len(),
{
}

/// Law: in a well-formed topology the device names of any room are
/// in strictly ascending lexicographic order.
pub proof fn lemma_device_list_sorted(v: RoomsView, room: Seq<char>)
    requires
        wf_rooms(v),
        has_room(v, room),
    ensures
        sorted_names(devices_of(v, room)),
{
    let i = room_idx(v, room);
    assert(0 <= i < v.len());
}

/// Law: a device added by a successful `add_device` is present in
/// its room afterwards. With the contract of `add_device`, a
/// repeated call on the same pair must therefore fail with
/// `DeviceNameClash`; with the contract of `remove_device`, a
/// removal of the pair must return `true`.
pub proof fn lemma_added_device_present(v0: RoomsView, v1: RoomsView, room: Seq<char>, dev: Seq<char>)
    requires
        forall|x: Seq<char>|
            #[trigger] devices_of(v1, room).contains(x) <==> devices_of(v0, room).contains(x) || x
                == dev,
    ensures
        devices_of(v1, room).contains(dev),
{
}

/// Law: a device removed by a successful `remove_device` is absent
/// from its room afterwards. With the contract of `remove_device`,
/// a second removal of the same pair must therefore return `false`:
/// each successfully added device is removed `true` exactly once.
pub proof fn lemma_removed_device_gone(v0: RoomsView, v1: RoomsView, room: Seq<char>, dev: Seq<char>)
    requires
        forall|x: Seq<char>|
            #[trigger] devices_of(v1, room).contains(x) <==> devices_of(v0, room).contains(x) && x
                != dev,
    ensures
        !devices_of(v1, room).contains(dev),
{
}

/// The report line for one device: its state text if the lookup
/// capability resolves the key, else an inline error line naming the
/// room and the device.
pub open spec fn device_line<T: GetDevice>(p: T, room: Seq<char>, dev: Seq<char>) -> Seq<char> {
    match p.device_state(room, dev) {
        Some(st) => "\t\t "@ + dev + " => "@ + st,
        None => "Error! Cannot find info about "@ + room + "-"@ + dev,
    }
}

/// The report lines for the devices of one room from position `j`
/// on, each preceded by a line break.
pub open spec fn devices_text<T: GetDevice>(
    p: T,
    room: Seq<char>,
    devs: Seq<Seq<char>>,
    j: int,
) -> Seq<char>
    decreases devs.len() - j,
{
    if j < 0 || j >= devs.len() {
        Seq::empty()
    } else {
        "\n"@ + device_line(p, room, devs[j]) + devices_text(p, room, devs, j + 1)
    }
}

/// The report lines for the rooms from position `i` on: a header
/// line per room followed by its device lines.
pub open spec fn rooms_text<T: GetDevice>(p: T, v: RoomsView, i: int) -> Seq<char>
    decreases v.len() - i,
{
    if i < 0 || i >= v.len() {
        Seq::empty()
    } else {
        "\n\t Room: "@ + v[i].0 + devices_text(p, v[i].0, v[i].1, 0) + rooms_text(p, v, i + 1)
    }
}

/// The whole report: a fixed header, then every room in topology
/// order with every device in room order.
pub open spec fn report_text<T: GetDevice>(p: T, v: RoomsView) -> Seq<char> {
    "General report on House:"@ + rooms_text(p, v, 0)
}

/// No device name in the list holds a line break.
pub open spec fn names_newline_free(devs: Seq<Seq<char>>) -> bool {
    forall|j: int| 0 <= j < devs.len() ==> newline_free(#[trigger] devs[j])
}

/// No state text the capability resolves for the listed devices
/// holds a line break.
pub open spec fn states_newline_free<T: GetDevice>(
    p: T,
    room: Seq<char>,
    devs: Seq<Seq<char>>,
) -> bool {
    forall|j: int|
        0 <= j < devs.len() ==> (p.device_state(room, #[trigger] devs[j]) matches Some(st)
            ==> newline_free(st))
}

/// No room name, device name, or resolved state text of the
/// topology holds a line break.
pub open spec fn report_inputs_newline_free<T: GetDevice>(p: T, v: RoomsView) -> bool {
    forall|k: int|
        0 <= k < v.len() ==> newline_free(#[trigger] v[k].0) && names_newline_free(v[k].1)
            && states_newline_free(p, v[k].0, v[k].1)
}

/// The number of devices in the rooms from position `i` on.
pub open spec fn total_devices(v: RoomsView, i: int) -> nat
    decreases v.len() - i,
{
    if i < 0 || i >= v.len() {
        0
    } else {
        v[i].1.len() + total_devices(v, i + 1)
    }
}

/// Line-break counts of the fixed pieces of the report.
proof fn lemma_report_literals()
    ensures
        count_char("General report on House:"@, '\n') == 0,
        count_char("\n"@, '\n') == 1,
        count_char("\t Room: "@, '\n') == 0,
        count_char("\t\t "@, '\n') == 0,
        count_char(" => "@, '\n') == 0,
        count_char("Error! Cannot find info about "@, '\n') == 0,
        count_char("-"@, '\n') == 0,
        "\n\t Room: "@ == "\n"@ + "\t Room: "@,
{
    reveal_strlit("General report on House:");
    reveal_strlit("\n");
    reveal_strlit("\t Room: ");
    reveal_strlit("\n\t Room: ");
    reveal_strlit("\t\t ");
    reveal_strlit(" => ");
    reveal_strlit("Error! Cannot find info about ");
    reveal_strlit("-");
    lemma_count_char_absent("General report on House:"@, '\n');
    lemma_count_char_absent("\t Room: "@, '\n');
    lemma_count_char_absent("\t\t "@, '\n');
    lemma_count_char_absent(" => "@, '\n');
    lemma_count_char_absent("Error! Cannot find info about "@, '\n');
    lemma_count_char_absent("-"@, '\n');
    assert("\n"@.drop_last() =~= Seq::<char>::empty());
    assert("\n"@.last() == '\n');
    assert(count_char(Seq::<char>::empty(), '\n') == 0);
    assert(count_char("\n"@, '\n') == count_char("\n"@.drop_last(), '\n') + 1);
    assert("\n\t Room: "@ =~= "\n"@ + "\t Room: "@);
}

/// One device line holds no line break of its own.
proof fn lemma_device_line_newlines<T: GetDevice>(p: T, room: Seq<char>, dev: Seq<char>)
    requires
        newline_free(room),
        newline_free(dev),
        p.device_state(room, dev) matches Some(st) ==> newline_free(st),
    ensures
        count_char(device_line(p, room, dev), '\n') == 0,
{
    lemma_report_literals();
    lemma_count_char_absent(dev, '\n');
    lemma_count_char_absent(room, '\n');
    match p.device_state(room, dev) {
        Some(st) => {
            lemma_count_char_absent(st, '\n');
            lemma_count_char_concat("\t\t "@, dev, '\n');
            lemma_count_char_concat("\t\t "@ + dev, " => "@, '\n');
            lemma_count_char_concat("\t\t "@ + dev + " => "@, st, '\n');
        },
        None => {
            lemma_count_char_concat("Error! Cannot find info about "@, room, '\n');
            lemma_count_char_concat("Error! Cannot find info about "@ + room, "-"@, '\n');
            lemma_count_char_concat("Error! Cannot find info about "@ + room + "-"@, dev, '\n');
        },
    }
}

/// The device lines of one room from position `j` on hold one line
/// break per device.
proof fn lemma_devices_text_newlines<T: GetDevice>(
    p: T,
    room: Seq<char>,
    devs: Seq<Seq<char>>,
    j: int,
)
    requires
        0 <= j,
        newline_free(room),
        names_newline_free(devs),
        states_newline_free(p, room, devs),
    ensures
        count_char(devices_text(p, room, devs, j), '\n') == if j < devs.len() {
            devs.len() - j
        } else {
            0
        },
    decreases devs.len() - j,
{
    lemma_report_literals();
    if j < devs.len() {
        lemma_devices_text_newlines(p, room, devs, j + 1);
        lemma_device_line_newlines(p, room, devs[j]);
        lemma_count_char_concat("\n"@, device_line(p, room, devs[j]), '\n');
        lemma_count_char_concat(
            "\n"@ + device_line(p, room, devs[j]),
            devices_text(p, room, devs, j + 1),
            '\n',
        );
    }
}

/// The room sections from position `i` on hold one line break per
/// room and one per device.
proof fn lemma_rooms_text_newlines<T: GetDevice>(p: T, v: RoomsView, i: int)
    requires
        0 <= i,
        report_inputs_newline_free(p, v),
    ensures
        count_char(rooms_text(p, v, i), '\n') == if i < v.len() {
            v.len() - i + total_devices(v, i)
        } else {
            0
        },
    decreases v.len() - i,
{
    lemma_report_literals();
    if i < v.len() {
        lemma_rooms_text_newlines(p, v, i + 1);
        lemma_devices_text_newlines(p, v[i].0, v[i].1, 0);
        lemma_count_char_absent(v[i].0, '\n');
        lemma_count_char_concat("\n"@, "\t Room: "@, '\n');
        lemma_count_char_concat("\n\t Room: "@, v[i].0, '\n');
        lemma_count_char_concat("\n\t Room: "@ + v[i].0, devices_text(p, v[i].0, v[i].1, 0), '\n');
        lemma_count_char_concat(
            "\n\t Room: "@ + v[i].0 + devices_text(p, v[i].0, v[i].1, 0),
            rooms_text(p, v, i + 1),
            '\n',
        );
    }
}

/// Law: when no room name, device name, or resolved state text
/// holds a line break, the report breaks into exactly one header
/// line, one line per room, and one line per device: its line-break
/// count is the number of rooms plus the number of devices. (A name
/// holding a line break would split its own line, so such inputs
/// are left out here.)
pub proof fn lemma_report_line_count<T: GetDevice>(p: T, v: RoomsView)
    requires
        report_inputs_newline_free(p, v),
    ensures
        count_char(report_text(p, v), '\n') == v.len() + total_devices(v, 0),
{
    lemma_report_literals();
    lemma_rooms_text_newlines(p, v, 0);
    lemma_count_char_concat("General report on House:"@, rooms_text(p, v, 0), '\n');
    if v.len() == 0 {
        assert(total_devices(v, 0) == 0);
    }
}

impl House {
    /// Walks the topology in order and resolves every device through
    /// the given lookup capability. Never fails: a key the
    /// capability cannot resolve yields an inline error line and the
    /// report goes on.
    pub fn generate_report<T: GetDevice>(&self, info_provider: &T) -> (r: String)
        requires
            self.wf(),
        ensures
            r@ == report_text(*info_provider, self@),
    {
        proof {
            self.view_facts();
        }
        let mut s = "General report on House:".to_owned();
        let n = self.rooms.len();
        let mut i: usize = 0;
        while i < n
            invariant
                n == self.rooms@.len(),
                n == self@.len(),
                forall|k: int|
                    0 <= k < self@.len() ==> #[trigger] self@[k] == entry_view(self.rooms@[k]),
                i <= n,
                s@ + rooms_text(*info_provider, self@, i as int) == report_text(
                    *info_provider,
                    self@,
                ),
            decreases n - i,
        {
            let ghost s_room_start = s@;
            let room = &self.rooms[i];
            s.append("\n\t Room: ");
            s.append(room.name.as_str());
            proof {
                assert(room.name@ == self@[i as int].0);
                assert(room.devices.deep_view() == self@[i as int].1);
                assert(s@ + devices_text(
                    *info_provider,
                    room.name@,
                    room.devices.deep_view(),
                    0,
                ) + rooms_text(*info_provider, self@, i as int + 1) =~= s_room_start + rooms_text(
                    *info_provider,
                    self@,
                    i as int,
                ));
            }
            let m = room.devices.len();
            let mut j: usize = 0;
            while j < m
                invariant
                    m == room.devices@.len(),
                    m == room.devices.deep_view().len(),
                    j <= m,
                    s@ + devices_text(
                        *info_provider,
                        room.name@,
                        room.devices.deep_view(),
                        j as int,
                    ) + rooms_text(*info_provider, self@, i as int + 1) == report_text(
                        *info_provider,
                        self@,
                    ),
                decreases m - j,
            {
                let ghost s_dev_start = s@;
                let ghost devs = room.devices.deep_view();
                let device = &room.devices[j];
                proof {
                    assert(devs[j as int] == device@);
                }
                match info_provider.get_device(room.name.as_str(), device.as_str()) {
                    Some(st) => {
                        s.append("\n");
                        s.append("\t\t ");
                        s.append(device.as_str());
                        s.append(" => ");
                        s.append(st.as_str());
                        proof {
                            assert(device_line(*info_provider, room.name@, devs[j as int])
                                == "\t\t "@ + device@ + " => "@ + st@);
                        }
                    },
                    None => {
                        s.append("\n");
                        s.append("Error! Cannot find info about ");
                        s.append(room.name.as_str());
                        s.append("-");
                        s.append(device.as_str());
                        proof {
                            assert(device_line(*info_provider, room.name@, devs[j as int])
                                == "Error! Cannot find info about "@ + room.name@ + "-"@
                                + device@);
                        }
                    },
                }
                proof {
                    assert(s@ + devices_text(*info_provider, room.name@, devs, j as int + 1)
                        =~= s_dev_start + devices_text(*info_provider, room.name@, devs, j as int));
                }
                j += 1;
            }
            proof {
                assert(devices_text(
                    *info_provider,
                    room.name@,
                    room.devices.deep_view(),
                    m as int,
                ) =~= Seq::<char>::empty());
                assert(s@ + rooms_text(*info_provider, self@, i as int + 1) =~= s@ + devices_text(
                    *info_provider,
                    room.name@,
                    room.devices.deep_view(),
                    m as int,
                ) + rooms_text(*info_provider, self@, i as int + 1));
            }
            i += 1;
        }
        proof {
            assert(rooms_text(*info_provider, self@, n as int) =~= Seq::<char>::empty());
            assert(s@ =~= s@ + rooms_text(*info_provider, self@, n as int));
        }
        s
    }
}


} // verus!
