//! The device registry: concrete device values keyed by (room,
//! device) identity.
//!
//! The registry is independent of the topology and need not stay
//! consistent with it: an entry may exist for a key the topology
//! does not hold, and the other way round. Writes are unconditional
//! and the last write under a key wins. Resolution checks
//! thermometers before sockets, so it is deterministic even when
//! both kinds share a key.

use vstd::prelude::*;

use crate::devices::{
    lemma_socket_state_newline_free, lemma_thermometer_state_newline_free, socket_state_text,
    thermometer_state_text, Socket, Thermometer,
};
use crate::house::{
    lemma_report_line_count, names_newline_free, report_text, states_newline_free, total_devices,
    GetDevice, ReportState, RoomsView,
};
use crate::text::{count_char, newline_free};

verus! {

/// One registry entry: a concrete device value under its key.
/// Entries are appended; the latest entry under a key is the
/// authoritative one.
#[derive(Debug)]
struct RegEntry<V> {
    room: String,
    device: String,
    value: V,
}

/// The registry of concrete device values, one store per kind.
#[derive(Debug)]
pub struct Spooky {
    thermometers: Vec<RegEntry<Thermometer>>,
    sockets: Vec<RegEntry<Socket>>,
}

spec fn reg_key<V>(e: RegEntry<V>) -> (Seq<char>, Seq<char>) {
    (e.room@, e.device@)
}

/// The mapping a list of entries stands for: later entries win.
spec fn reg_map<V>(s: Seq<RegEntry<V>>) -> Map<(Seq<char>, Seq<char>), V>
    decreases s.len(),
{
    if s.len() == 0 {
        Map::empty()
    } else {
        reg_map(s.drop_last()).insert(reg_key(s.last()), s.last().value)
    }
}

/// An entry whose key no later entry repeats is the one the mapping
/// holds under that key.
proof fn lemma_reg_lookup<V>(s: Seq<RegEntry<V>>, i: int)
    requires
        0 <= i < s.len(),
        forall|k: int| i < k < s.len() ==> reg_key(#[trigger] s[k]) != reg_key(s[i]),
    ensures
        reg_map(s).contains_key(reg_key(s[i])),
        reg_map(s)[reg_key(s[i])] == s[i].value,
    decreases s.len(),
{
    if i == s.len() - 1 {
    } else {
        assert(reg_key(s[s.len() - 1]) != reg_key(s[i]));
        assert(s.drop_last()[i] == s[i]);
        assert(forall|k: int|
            i < k < s.drop_last().len() ==> reg_key(#[trigger] s.drop_last()[k]) != reg_key(
                s.drop_last()[i],
            ));
        lemma_reg_lookup(s.drop_last(), i);
    }
}

/// A key no entry carries is absent from the mapping.
proof fn lemma_reg_absent<V>(s: Seq<RegEntry<V>>, key: (Seq<char>, Seq<char>))
    requires
        forall|k: int| 0 <= k < s.len() ==> reg_key(#[trigger] s[k]) != key,
    ensures
        !reg_map(s).contains_key(key),
    decreases s.len(),
{
    if s.len() > 0 {
        assert(forall|k: int|
            0 <= k < s.drop_last().len() ==> reg_key(#[trigger] s.drop_last()[k]) != key);
        lemma_reg_absent(s.drop_last(), key);
    }
}

/// The latest entry under the key, if one exists.
fn reg_find<'a, V>(entries: &'a Vec<RegEntry<V>>, rkey: &String, dkey: &String) -> (r: Option<
    &'a V,
>)
    ensures
        (match r {
            Some(v) => reg_map(entries@).contains_key((rkey@, dkey@)) && *v == reg_map(entries@)[
                (rkey@, dkey@)
            ],
            None => !reg_map(entries@).contains_key((rkey@, dkey@)),
        }),
{
    let n = entries.len();
    let mut i: usize = n;
    while i > 0
        invariant
            n == entries@.len(),
            i <= n,
            forall|k: int| i <= k < n ==> reg_key(#[trigger] entries@[k]) != (rkey@, dkey@),
        decreases i,
    {
        i -= 1;
        let e = &entries[i];
        if e.room == *rkey && e.device == *dkey {
            proof {
                assert(reg_key(entries@[i as int]) == (rkey@, dkey@));
                lemma_reg_lookup(entries@, i as int);
            }
            return Some(&e.value);
        }
    }
    proof {
        lemma_reg_absent(entries@, (rkey@, dkey@));
    }
    None
}

impl Spooky {
    /// The mapping from key to thermometer the registry holds.
    pub closed spec fn spec_thermometers(&self) -> Map<(Seq<char>, Seq<char>), Thermometer> {
        reg_map(self.thermometers@)
    }

    /// The mapping from key to socket the registry holds.
    pub closed spec fn spec_sockets(&self) -> Map<(Seq<char>, Seq<char>), Socket> {
        reg_map(self.sockets@)
    }

    /// Registers a thermometer under the key, replacing any earlier
    /// thermometer there.
    pub fn add_thermometer(&mut self, room_name: &str, device_name: &str, thermometer: Thermometer)
        ensures
            final(self).spec_thermometers() == old(self).spec_thermometers().insert(
                (room_name@, device_name@),
                thermometer,
            ),
            final(self).spec_sockets() == old(self).spec_sockets(),
    {
        let entry = RegEntry { room: room_name.to_owned(), device: device_name.to_owned(), value: thermometer };
        let ghost ge = entry;
        self.thermometers.push(entry);
        proof {
            assert(self.thermometers@.drop_last() =~= old(self).thermometers@);
            assert(self.thermometers@.last() == ge);
        }
    }

    /// Registers a socket under the key, replacing any earlier
    /// socket there.
    pub fn add_socket(&mut self, room_name: &str, device_name: &str, socket: Socket)
        ensures
            final(self).spec_sockets() == old(self).spec_sockets().insert(
                (room_name@, device_name@),
                socket,
            ),
            final(self).spec_thermometers() == old(self).spec_thermometers(),
    {
        let entry = RegEntry { room: room_name.to_owned(), device: device_name.to_owned(), value: socket };
        let ghost ge = entry;
        self.sockets.push(entry);
        proof {
            assert(self.sockets@.drop_last() =~= old(self).sockets@);
            assert(self.sockets@.last() == ge);
        }
    }
}

impl Default for Spooky {
    /// An empty registry.
    fn default() -> (s: Spooky)
        ensures
            s.spec_thermometers() == Map::<(Seq<char>, Seq<char>), Thermometer>::empty(),
            s.spec_sockets() == Map::<(Seq<char>, Seq<char>), Socket>::empty(),
    {
        Spooky { thermometers: Vec::new(), sockets: Vec::new() }
    }
}

impl GetDevice for Spooky {
    /// Thermometers are looked up before sockets, so resolution is
    /// deterministic when both kinds share a key.
    open spec fn device_state(&self, room: Seq<char>, device: Seq<char>) -> Option<Seq<char>> {
        if self.spec_thermometers().contains_key((room, device)) {
            Some(
                thermometer_state_text(
                    self.spec_thermometers()[(room, device)].spec_temperature(),
                ),
            )
        } else if self.spec_sockets().contains_key((room, device)) {
            Some(
                socket_state_text(
                    self.spec_sockets()[(room, device)].spec_voltage(),
                    self.spec_sockets()[(room, device)].spec_current(),
                    self.spec_sockets()[(room, device)].spec_on(),
                ),
            )
        } else {
            None
        }
    }

    fn get_device(&self, room: &str, device: &str) -> (r: Option<String>) {
        let rkey = room.to_owned();
        let dkey = device.to_owned();
        match reg_find(&self.thermometers, &rkey, &dkey) {
            Some(t) => {
                return Some(t.report_state());
            },
            None => {},
        }
        match reg_find(&self.sockets, &rkey, &dkey) {
            Some(s) => {
                return Some(s.report_state());
            },
            None => {},
        }
        None
    }
}

/// Every state text this registry resolves is a single line: the
/// device kinds render their readings without line breaks.
pub proof fn lemma_spooky_states_newline_free(s: Spooky, room: Seq<char>, devs: Seq<Seq<char>>)
    ensures
        states_newline_free(s, room, devs),
{
    assert forall|j: int|
        0 <= j < devs.len() implies (s.device_state(room, #[trigger] devs[j]) matches Some(st)
        ==> newline_free(st)) by {
        let key = (room, devs[j]);
        if s.spec_thermometers().contains_key(key) {
            lemma_thermometer_state_newline_free(s.spec_thermometers()[key].spec_temperature());
        } else if s.spec_sockets().contains_key(key) {
            lemma_socket_state_newline_free(
                s.spec_sockets()[key].spec_voltage(),
                s.spec_sockets()[key].spec_current(),
                s.spec_sockets()[key].spec_on(),
            );
        }
    }
}

/// Law: a report generated against this registry breaks into
/// exactly one header line, one line per room, and one line per
/// device, as long as no room or device name holds a line break of
/// its own.
pub proof fn lemma_spooky_report_line_count(s: Spooky, v: RoomsView)
    requires
        forall|k: int| 0 <= k < v.len() ==> newline_free(#[trigger] v[k].0),
        forall|k: int| 0 <= k < v.len() ==> names_newline_free(#[trigger] v[k].1),
    ensures
        count_char(report_text(s, v), '\n') == v.len() + total_devices(v, 0),
{
    assert forall|k: int|
        0 <= k < v.len() implies newline_free(#[trigger] v[k].0) && names_newline_free(v[k].1)
        && states_newline_free(s, v[k].0, v[k].1) by {
        lemma_spooky_states_newline_free(s, v[k].0, v[k].1);
    }
    lemma_report_line_count(s, v);
}

} // verus!
