//! Devices: a list of device records with an index from device id and an index
//! from (owner, device id) to positions. Owners are principals, held as their
//! text; the metadata of a device is a list of (key, value) pairs in key order.
use vstd::prelude::*;
use crate::text::{clone_texts};
use crate::sorted_map::{SortedMap, KeyFields, MapKey, text_key, pair_key, rank_pair, rank_single, keys_of,
    map_of};
use crate::text::Rank;

verus! {

#[derive(Debug)]
pub enum DeviceType {
    Mobile,
    Desktop,
    Server,
    IoT,
    Embedded,
    Other(String),
}

impl Clone for DeviceType {
    fn clone(&self) -> (r: Self)
        ensures
            r == *self,
    {
        match self {
            DeviceType::Mobile => DeviceType::Mobile,
            DeviceType::Desktop => DeviceType::Desktop,
            DeviceType::Server => DeviceType::Server,
            DeviceType::IoT => DeviceType::IoT,
            DeviceType::Embedded => DeviceType::Embedded,
            DeviceType::Other(s) => DeviceType::Other(s.clone()),
        }
    }
}

/// Whether two device types are the same, an `Other` type by its text.
pub open spec fn same_type(a: DeviceType, b: DeviceType) -> bool {
    match (a, b) {
        (DeviceType::Other(x), DeviceType::Other(y)) => x@ == y@,
        (DeviceType::Other(_), _) => false,
        (_, DeviceType::Other(_)) => false,
        _ => a == b,
    }
}

fn type_eq(a: &DeviceType, b: &DeviceType) -> (r: bool)
    ensures
        r == same_type(*a, *b),
{
    match (a, b) {
        (DeviceType::Mobile, DeviceType::Mobile) => true,
        (DeviceType::Desktop, DeviceType::Desktop) => true,
        (DeviceType::Server, DeviceType::Server) => true,
        (DeviceType::IoT, DeviceType::IoT) => true,
        (DeviceType::Embedded, DeviceType::Embedded) => true,
        (DeviceType::Other(x), DeviceType::Other(y)) => *x == *y,
        _ => false,
    }
}

#[derive(PartialEq, Eq, Structural, Clone, Copy, Debug)]
pub enum DeviceStatus {
    Online,
    Offline,
    Maintenance,
    Disabled,
}

#[derive(Debug)]
pub enum DeviceCapability {
    Audio,
    Video,
    Storage,
    Network,
    Compute,
    Sensor,
    Custom(String),
}

impl Clone for DeviceCapability {
    fn clone(&self) -> (r: Self)
        ensures
            r == *self,
    {
        match self {
            DeviceCapability::Audio => DeviceCapability::Audio,
            DeviceCapability::Video => DeviceCapability::Video,
            DeviceCapability::Storage => DeviceCapability::Storage,
            DeviceCapability::Network => DeviceCapability::Network,
            DeviceCapability::Compute => DeviceCapability::Compute,
            DeviceCapability::Sensor => DeviceCapability::Sensor,
            DeviceCapability::Custom(s) => DeviceCapability::Custom(s.clone()),
        }
    }
}

/// Whether two capabilities are the same, a `Custom` one by its text.
pub open spec fn same_capability(a: DeviceCapability, b: DeviceCapability) -> bool {
    match (a, b) {
        (DeviceCapability::Custom(x), DeviceCapability::Custom(y)) => x@ == y@,
        (DeviceCapability::Custom(_), _) => false,
        (_, DeviceCapability::Custom(_)) => false,
        _ => a == b,
    }
}

fn capability_eq(a: &DeviceCapability, b: &DeviceCapability) -> (r: bool)
    ensures
        r == same_capability(*a, *b),
{
    match (a, b) {
        (DeviceCapability::Audio, DeviceCapability::Audio) => true,
        (DeviceCapability::Video, DeviceCapability::Video) => true,
        (DeviceCapability::Storage, DeviceCapability::Storage) => true,
        (DeviceCapability::Network, DeviceCapability::Network) => true,
        (DeviceCapability::Compute, DeviceCapability::Compute) => true,
        (DeviceCapability::Sensor, DeviceCapability::Sensor) => true,
        (DeviceCapability::Custom(x), DeviceCapability::Custom(y)) => *x == *y,
        _ => false,
    }
}

/// Whether `caps` holds a capability that is the same as `c`.
pub open spec fn holds_capability(caps: Seq<DeviceCapability>, c: DeviceCapability) -> bool {
    exists|k: int| 0 <= k < caps.len() && same_capability(#[trigger] caps[k], c)
}

/// Whether `caps` holds a capability that is the same as `c`.
fn has_capability(caps: &Vec<DeviceCapability>, c: &DeviceCapability) -> (r: bool)
    ensures
        r == holds_capability(caps@, *c),
{
    for j in 0..caps.len()
        invariant
            forall|k: int| 0 <= k < j ==> !same_capability(#[trigger] caps@[k], *c),
    {
        if capability_eq(&caps[j], c) {
            assert(same_capability(caps@[j as int], *c));
            return true;
        }
    }
    false
}

/// A device.
#[derive(Debug)]
pub struct DeviceInfo {
    pub id: String,
    pub name: String,
    pub device_type: DeviceType,
    pub owner: String,
    pub status: DeviceStatus,
    pub capabilities: Vec<DeviceCapability>,
    pub metadata: Vec<(String, String)>,
    pub created_at: u64,
    pub updated_at: u64,
    pub last_seen: u64,
}

/// A device as a value.
pub struct DeviceRecord {
    pub id: String,
    pub name: String,
    pub device_type: DeviceType,
    pub owner: String,
    pub status: DeviceStatus,
    pub capabilities: Seq<DeviceCapability>,
    pub metadata: Seq<(String, String)>,
    pub created_at: u64,
    pub updated_at: u64,
    pub last_seen: u64,
}

impl View for DeviceInfo {
    type V = DeviceRecord;

    open spec fn view(&self) -> DeviceRecord {
        DeviceRecord {
            id: self.id,
            name: self.name,
            device_type: self.device_type,
            owner: self.owner,
            status: self.status,
            capabilities: self.capabilities@,
            metadata: self.metadata@,
            created_at: self.created_at,
            updated_at: self.updated_at,
            last_seen: self.last_seen,
        }
    }
}

impl Clone for DeviceInfo {
    fn clone(&self) -> (r: Self)
        ensures
            r@ == self@,
    {
        let mut caps: Vec<DeviceCapability> = Vec::new();
        for i in 0..self.capabilities.len()
            invariant
                caps@ == self.capabilities@.subrange(0, i as int),
        {
            caps.push(self.capabilities[i].clone());
            proof {
                assert(caps@ =~= self.capabilities@.subrange(0, i + 1));
            }
        }
        let mut meta: Vec<(String, String)> = Vec::new();
        for i in 0..self.metadata.len()
            invariant
                meta@ == self.metadata@.subrange(0, i as int),
        {
            meta.push((self.metadata[i].0.clone(), self.metadata[i].1.clone()));
            proof {
                assert(meta@ =~= self.metadata@.subrange(0, i + 1));
            }
        }
        assert(caps@ =~= self.capabilities@);
        assert(meta@ =~= self.metadata@);
        DeviceInfo {
            id: self.id.clone(),
            name: self.name.clone(),
            device_type: self.device_type.clone(),
            owner: self.owner.clone(),
            status: self.status,
            capabilities: caps,
            metadata: meta,
            created_at: self.created_at,
            updated_at: self.updated_at,
            last_seen: self.last_seen,
        }
    }
}

/// The key of the owner index: owner, then device id.
#[derive(Debug)]
pub struct DeviceOwnerKey {
    pub owner: String,
    pub device_id: String,
}

impl MapKey for DeviceOwnerKey {
    open spec fn key_fields(&self) -> KeyFields {
        pair_key(self.owner@, self.device_id@)
    }

    fn rank_key(&self, other: &Self) -> (r: Rank) {
        rank_pair(self.owner.as_str(), self.device_id.as_str(), other.owner.as_str(), other.device_id.as_str())
    }
}

/// The key of the device-id index.
#[derive(Debug)]
pub struct DeviceIdKey {
    pub device_id: String,
}

impl MapKey for DeviceIdKey {
    open spec fn key_fields(&self) -> KeyFields {
        text_key(self.device_id@)
    }

    fn rank_key(&self, other: &Self) -> (r: Rank) {
        rank_single(self.device_id.as_str(), other.device_id.as_str())
    }
}

/// What a device search asks: each given field must match.
#[derive(Debug)]
pub struct DeviceFilter {
    pub owner: Option<String>,
    pub device_type: Option<DeviceType>,
    pub status: Option<DeviceStatus>,
    pub capability: Option<DeviceCapability>,
}

/// A page of devices, with the total and the page asked for.
#[derive(Debug)]
pub struct DeviceListResponse {
    pub devices: Vec<DeviceInfo>,
    pub total: u64,
    pub offset: u64,
    pub limit: u64,
}

/// Whether device `d` passes the filter `f`.
pub open spec fn passes(d: DeviceRecord, f: DeviceFilter) -> bool {
    &&& (f.owner matches Some(o) ==> d.owner@ == o@)
    &&& (f.device_type matches Some(t) ==> same_type(d.device_type, t))
    &&& (f.status matches Some(s) ==> d.status == s)
    &&& (f.capability matches Some(c) ==> holds_capability(d.capabilities, c))
}

/// The devices of a list, each as a value.
pub open spec fn devices_view(s: Seq<DeviceInfo>) -> Seq<DeviceRecord> {
    s.map_values(|d: DeviceInfo| d@)
}

/// What the device service holds: the devices in the order they were added, the
/// id index, and the owner index in key order.
pub struct DevicesView {
    pub devices: Seq<DeviceRecord>,
    pub by_id: Map<KeyFields, u64>,
    pub by_owner: Seq<(KeyFields, u64)>,
}

impl DevicesView {
    /// Every index points into the list, and the id index files each device under
    /// its own id.
    pub open spec fn wf(self) -> bool {
        &&& forall|k: KeyFields| #[trigger] self.by_id.contains_key(k) ==> {
            &&& self.by_id[k] < self.devices.len()
            &&& text_key(self.devices[self.by_id[k] as int].id@) == k
        }
        &&& forall|k: KeyFields| #[trigger] map_of(self.by_owner).contains_key(k) ==> map_of(self.by_owner)[k]
            < self.devices.len()
    }

    /// The device that the id index finds for `id`.
    pub open spec fn device(self, id: Seq<char>) -> Option<DeviceRecord> {
        if self.by_id.contains_key(text_key(id)) {
            Some(self.devices[self.by_id[text_key(id)] as int])
        } else {
            None
        }
    }
}

/// Whether an owner-index entry belongs to `owner`.
pub open spec fn owner_entry(e: (KeyFields, u64), owner: Seq<char>) -> bool {
    e.0[0] == crate::text::utf8_of(owner)
}

/// The devices that the owner-index entries of `owner` point to, in key order.
pub open spec fn owner_devices(v: DevicesView, owner: Seq<char>) -> Seq<DeviceRecord> {
    v.by_owner.filter(|e: (KeyFields, u64)| owner_entry(e, owner)).map_values(|e: (KeyFields, u64)| v.devices[e.1 as int])
}

/// The device records, with their indices.
pub struct DeviceService {
    devices: Vec<DeviceInfo>,
    id_index: SortedMap<DeviceIdKey, u64>,
    owner_index: SortedMap<DeviceOwnerKey, u64>,
}

impl View for DeviceService {
    type V = DevicesView;

    closed spec fn view(&self) -> DevicesView {
        DevicesView {
            devices: devices_view(self.devices@),
            by_id: self.id_index.as_map(),
            by_owner: self.owner_index.pairs(),
        }
    }
}

impl DeviceService {
    pub closed spec fn wf(&self) -> bool {
        &&& self.id_index.wf()
        &&& self.owner_index.wf()
        &&& forall|k: KeyFields| #[trigger] self.id_index.as_map().contains_key(k) ==> {
            &&& self.id_index.as_map()[k] < self.devices@.len()
            &&& text_key(self.devices@[self.id_index.as_map()[k] as int].id@) == k
        }
        &&& forall|k: KeyFields| #[trigger] self.owner_index.as_map().contains_key(k) ==> self.owner_index.as_map()[k]
            < self.devices@.len()
    }

    /// The indices point into the list; the owner index is walked in key order.
    pub proof fn lemma_wf(&self)
        requires
            self.wf(),
        ensures
            self@.wf(),
            crate::sorted_map::strictly_sorted(keys_of(self@.by_owner)),
    {
        self.owner_index.lemma_pairs();
    }

    pub fn new() -> (s: Self)
        ensures
            s.wf(),
            s@.devices == Seq::<DeviceRecord>::empty(),
            s@.by_id == Map::<KeyFields, u64>::empty(),
            s@.by_owner == Seq::<(KeyFields, u64)>::empty(),
    {
        let s = DeviceService { devices: Vec::new(), id_index: SortedMap::new(), owner_index: SortedMap::new() };
        assert(s@.devices =~= Seq::<DeviceRecord>::empty());
        assert(s@.by_owner =~= Seq::<(KeyFields, u64)>::empty());
        s
    }

    /// Adds a device at the end and files it under its id and its (owner, id);
    /// a device id already filed is refused. Returns the device's position.
    pub fn add_device(&mut self, device_info: DeviceInfo) -> (r: Result<u64, String>)
        requires
            old(self).wf(),
            old(self)@.devices.len() < u64::MAX,
        ensures
            final(self).wf(),
            old(self)@.by_id.contains_key(text_key(device_info.id@)) ==> (r matches Err(e) && e@
                == "Device ID already exists"@) && final(self)@ == old(self)@,
            !old(self)@.by_id.contains_key(text_key(device_info.id@)) ==> {
                &&& r == Ok::<u64, String>(old(self)@.devices.len() as u64)
                &&& final(self)@.devices == old(self)@.devices.push(device_info@)
                &&& final(self)@.by_id == old(self)@.by_id.insert(
                    text_key(device_info.id@),
                    old(self)@.devices.len() as u64,
                )
                &&& map_of(final(self)@.by_owner) == map_of(old(self)@.by_owner).insert(
                    pair_key(device_info.owner@, device_info.id@),
                    old(self)@.devices.len() as u64,
                )
            },
    {
        let id_key = DeviceIdKey { device_id: device_info.id.clone() };
        if self.id_index.contains_key(&id_key) {
            return Err("Device ID already exists".to_string());
        }
        let owner_key = DeviceOwnerKey { owner: device_info.owner.clone(), device_id: device_info.id.clone() };
        let index = self.devices.len() as u64;
        let ghost dv = device_info@;
        let ghost old_view = self@;
        self.devices.push(device_info);
        proof {
            self.owner_index.lemma_pairs();
        }
        self.id_index.insert(id_key, index);
        self.owner_index.insert(owner_key, index);
        proof {
            self.owner_index.lemma_pairs();
            assert(self@.devices =~= old_view.devices.push(dv));
        }
        Ok(index)
    }

    /// The position that the id index gives for `device_id`.
    fn position_of(&self, device_id: &str) -> (r: Option<usize>)
        requires
            self.wf(),
        ensures
            r is Some == self@.by_id.contains_key(text_key(device_id@)),
            r matches Some(i) ==> i == self@.by_id[text_key(device_id@)] && i < self.devices@.len(),
    {
        let key = DeviceIdKey { device_id: device_id.to_string() };
        match self.id_index.get(&key) {
            Some(i) => {
                let n = self.devices.len();
                assert(*i < n);
                Some(*i as usize)
            },
            None => None,
        }
    }

    /// The device filed under `device_id`.
    pub fn get_device_by_id(&self, device_id: &str) -> (r: Option<DeviceInfo>)
        requires
            self.wf(),
        ensures
            r is Some == self@.device(device_id@) is Some,
            r matches Some(d) ==> Some(d@) == self@.device(device_id@),
    {
        match self.position_of(device_id) {
            Some(i) => Some(self.devices[i].clone()),
            None => None,
        }
    }

    /// The devices of `owner`, in the order of their ids.
    pub fn get_devices_by_owner(&self, owner: &String) -> (r: Vec<DeviceInfo>)
        requires
            self.wf(),
        ensures
            devices_view(r@) == owner_devices(self@, owner@),
    {
        proof {
            self.owner_index.lemma_pairs();
        }
        let n = self.owner_index.len();
        let ghost q = self@.by_owner;
        let mut out: Vec<DeviceInfo> = Vec::new();
        for i in 0..n
            invariant
                self.wf(),
                n == q.len(),
                q == self@.by_owner,
                q == self.owner_index.pairs(),
                devices_view(out@) == q.take(i as int).filter(|e: (KeyFields, u64)| owner_entry(e, owner@)).map_values(
                    |e: (KeyFields, u64)| self@.devices[e.1 as int],
                ),
        {
            proof {
                reveal_with_fuel(Seq::<_>::filter, 1);
                assert(q.take(i + 1).drop_last() =~= q.take(i as int));
            }
            let (key, index) = self.owner_index.entry_at(i);
            proof {
                self.owner_index.lemma_at(i as int);
                crate::text::lemma_utf8_injective(key.owner@, owner@);
                assert(q[i as int] == (pair_key(key.owner@, key.device_id@), *index));
            }
            if key.owner == *owner {
                let n_dev = self.devices.len();
                assert(*index < n_dev);
                let d = self.devices[*index as usize].clone();
                let ghost before = out@;
                let ghost f = q.take(i as int).filter(|e: (KeyFields, u64)| owner_entry(e, owner@));
                out.push(d);
                proof {
                    assert(q.take(i + 1).filter(|e: (KeyFields, u64)| owner_entry(e, owner@)) == f.push(q[i as int]));
                    assert(devices_view(out@) =~= devices_view(before).push(d@));
                    assert(f.push(q[i as int]).map_values(|e: (KeyFields, u64)| self@.devices[e.1 as int]) =~= f.map_values(
                        |e: (KeyFields, u64)| self@.devices[e.1 as int],
                    ).push(self@.devices[*index as int]));
                }
            }
        }
        assert(q.take(n as int) =~= q);
        out
    }

    /// Replaces the device filed under `device_id` with `updated_device`, which must
    /// carry that id. Both indices stay as they were.
    pub fn update_device(&mut self, device_id: &str, updated_device: DeviceInfo) -> (r: Result<(), String>)
        requires
            old(self).wf(),
        ensures
            final(self).wf(),
            !old(self)@.by_id.contains_key(text_key(device_id@)) ==> (r matches Err(e) && e@ == "Device not found"@)
                && final(self)@ == old(self)@,
            old(self)@.by_id.contains_key(text_key(device_id@)) && updated_device.id@ != device_id@ ==> (r matches Err(
                e,
            ) && e@ == "Device ID mismatch"@) && final(self)@ == old(self)@,
            old(self)@.by_id.contains_key(text_key(device_id@)) && updated_device.id@ == device_id@ ==> {
                &&& r is Ok
                &&& final(self)@.devices == old(self)@.devices.update(
                    old(self)@.by_id[text_key(device_id@)] as int,
                    updated_device@,
                )
                &&& final(self)@.by_id == old(self)@.by_id
                &&& final(self)@.by_owner == old(self)@.by_owner
            },
    {
        let i = match self.position_of(device_id) {
            Some(i) => i,
            None => {
                return Err("Device not found".to_string());
            },
        };
        if !crate::text::text_equal(updated_device.id.as_str(), device_id) {
            return Err("Device ID mismatch".to_string());
        }
        let ghost dv = updated_device@;
        let ghost old_view = self@;
        self.devices.set(i, updated_device);
        proof {
            assert(self@.devices =~= old_view.devices.update(i as int, dv));
            let kd = text_key(device_id@);
            assert(old(self).id_index.as_map().contains_key(kd));
            assert(text_key(old(self).devices@[i as int].id@) == kd);
            assert forall|k: KeyFields| #[trigger] self.id_index.as_map().contains_key(k) implies text_key(
                self.devices@[self.id_index.as_map()[k] as int].id@,
            ) == k by {
                if self.id_index.as_map()[k] == i {
                    assert(text_key(old(self).devices@[i as int].id@) == k);
                    assert(self.devices@[i as int].id@ == device_id@);
                }
            }
        }
        Ok(())
    }

    /// Takes the device filed under `device_id` out of both indices; its record
    /// stays in the list.
    pub fn delete_device(&mut self, device_id: &str) -> (r: Result<(), String>)
        requires
            old(self).wf(),
        ensures
            final(self).wf(),
            !old(self)@.by_id.contains_key(text_key(device_id@)) ==> (r matches Err(e) && e@ == "Device not found"@)
                && final(self)@ == old(self)@,
            old(self)@.by_id.contains_key(text_key(device_id@)) ==> {
                let d = old(self)@.devices[old(self)@.by_id[text_key(device_id@)] as int];
                &&& r is Ok
                &&& final(self)@.devices == old(self)@.devices
                &&& final(self)@.by_id == old(self)@.by_id.remove(text_key(device_id@))
                &&& map_of(final(self)@.by_owner) == map_of(old(self)@.by_owner).remove(pair_key(d.owner@, device_id@))
            },
    {
        let i = match self.position_of(device_id) {
            Some(i) => i,
            None => {
                return Err("Device not found".to_string());
            },
        };
        let owner_key = DeviceOwnerKey { owner: self.devices[i].owner.clone(), device_id: device_id.to_string() };
        proof {
            self.owner_index.lemma_pairs();
        }
        self.id_index.remove(&DeviceIdKey { device_id: device_id.to_string() });
        self.owner_index.remove(&owner_key);
        proof {
            self.owner_index.lemma_pairs();
        }
        Ok(())
    }

    /// The devices from position `offset` up to `offset + limit` (or the end), with
    /// the total number of devices and the page asked for.
    pub fn get_all_devices(&self, offset: u64, limit: u64) -> (r: DeviceListResponse)
        requires
            self.wf(),
            offset + limit <= usize::MAX,
        ensures
            r.total == self@.devices.len(),
            r.offset == offset,
            r.limit == limit,
            devices_view(r.devices@) == (if offset < self@.devices.len() {
                self@.devices.subrange(
                    offset as int,
                    if offset + limit < self@.devices.len() { offset + limit } else { self@.devices.len() as int },
                )
            } else {
                Seq::<DeviceRecord>::empty()
            }),
    {
        let total = self.devices.len();
        let start = offset as usize;
        let wanted = start + limit as usize;
        let end = if wanted < total { wanted } else { total };
        let mut out: Vec<DeviceInfo> = Vec::new();
        let mut i = start;
        while i < end
            invariant
                start <= i,
                i <= end || end < start,
                end <= total,
                total == self.devices@.len(),
                start == offset,
                start < end ==> devices_view(out@) == self@.devices.subrange(start as int, i as int),
                start >= end ==> out@.len() == 0,
            decreases end - i,
        {
            let d = self.devices[i].clone();
            let ghost before = out@;
            out.push(d);
            proof {
                assert(devices_view(out@) =~= devices_view(before).push(d@));
                assert(self@.devices.subrange(start as int, i + 1) =~= self@.devices.subrange(start as int, i as int).push(
                    self@.devices[i as int],
                ));
            }
            i = i + 1;
        }
        proof {
            if start >= end {
                assert(devices_view(out@) =~= Seq::<DeviceRecord>::empty());
            }
        }
        DeviceListResponse { devices: out, total: total as u64, offset, limit }
    }

    /// The devices that pass `filter`, in the order they were added.
    pub fn search_devices(&self, filter: DeviceFilter) -> (r: Vec<DeviceInfo>)
        requires
            self.wf(),
        ensures
            devices_view(r@) == self@.devices.filter(|d: DeviceRecord| passes(d, filter)),
            devices_view(r@) == searched(self@.devices, filter),
    {
        let n = self.devices.len();
        let ghost all = self@.devices;
        let mut out: Vec<DeviceInfo> = Vec::new();
        for i in 0..n
            invariant
                n == self.devices@.len(),
                all == self@.devices,
                devices_view(out@) == all.take(i as int).filter(|d: DeviceRecord| passes(d, filter)),
        {
            proof {
                reveal_with_fuel(Seq::<_>::filter, 1);
                assert(all.take(i + 1).drop_last() =~= all.take(i as int));
            }
            let d = &self.devices[i];
            assert(all[i as int] == d@);
            let owner_ok = match &filter.owner {
                Some(o) => d.owner == *o,
                None => true,
            };
            let type_ok = match &filter.device_type {
                Some(t) => type_eq(&d.device_type, t),
                None => true,
            };
            let status_ok = match &filter.status {
                Some(st) => d.status == *st,
                None => true,
            };
            let cap_ok = match &filter.capability {
                Some(c) => has_capability(&d.capabilities, c),
                None => true,
            };
            assert(owner_ok == (filter.owner matches Some(o) ==> d@.owner@ == o@));
            assert(type_ok == (filter.device_type matches Some(t) ==> same_type(d@.device_type, t)));
            assert(status_ok == (filter.status matches Some(t) ==> d@.status == t));
            let ok = owner_ok && type_ok && status_ok && cap_ok;
            assert(ok == passes(d@, filter));
            if ok {
                let copy = d.clone();
                let ghost before = out@;
                out.push(copy);
                proof {
                    assert(devices_view(out@) =~= devices_view(before).push(copy@));
                }
            }
        }
        assert(all.take(n as int) =~= all);
        out
    }

    /// Sets the status of the device filed under `device_id`, stamped at `now`.
    pub fn update_device_status(&mut self, device_id: &str, status: DeviceStatus, now: u64) -> (r: Result<(), String>)
        requires
            old(self).wf(),
        ensures
            final(self).wf(),
            match old(self)@.device(device_id@) {
                None => (r matches Err(e) && e@ == "Device not found"@) && final(self)@ == old(self)@,
                Some(d) => {
                    &&& r is Ok
                    &&& final(self)@.devices == old(self)@.devices.update(
                        old(self)@.by_id[text_key(device_id@)] as int,
                        DeviceRecord { status, updated_at: now, ..d },
                    )
                    &&& final(self)@.by_id == old(self)@.by_id
                    &&& final(self)@.by_owner == old(self)@.by_owner
                },
            },
    {
        match self.get_device_by_id(device_id) {
            Some(d) => {
                proof {
                    self.lemma_id_of(device_id@);
                }
                let mut d = d;
                d.status = status;
                d.updated_at = now;
                self.update_device(device_id, d)
            },
            None => Err("Device not found".to_string()),
        }
    }

    /// Marks the device filed under `device_id` online and last seen at `now`.
    pub fn update_last_seen(&mut self, device_id: &str, now: u64) -> (r: Result<(), String>)
        requires
            old(self).wf(),
        ensures
            final(self).wf(),
            match old(self)@.device(device_id@) {
                None => (r matches Err(e) && e@ == "Device not found"@) && final(self)@ == old(self)@,
                Some(d) => {
                    &&& r is Ok
                    &&& final(self)@.devices == old(self)@.devices.update(
                        old(self)@.by_id[text_key(device_id@)] as int,
                        DeviceRecord { last_seen: now, status: DeviceStatus::Online, ..d },
                    )
                    &&& final(self)@.by_id == old(self)@.by_id
                    &&& final(self)@.by_owner == old(self)@.by_owner
                },
            },
    {
        match self.get_device_by_id(device_id) {
            Some(d) => {
                proof {
                    self.lemma_id_of(device_id@);
                }
                let mut d = d;
                d.last_seen = now;
                d.status = DeviceStatus::Online;
                self.update_device(device_id, d)
            },
            None => Err("Device not found".to_string()),
        }
    }

    /// The device filed under an id carries that id.
    proof fn lemma_id_of(&self, id: Seq<char>)
        requires
            self.wf(),
        ensures
            self@.device(id) matches Some(d) ==> d.id@ == id,
    {
        if self.id_index.as_map().contains_key(text_key(id)) {
            let i = self.id_index.as_map()[text_key(id)];
            crate::sorted_map::lemma_text_key_injective(self.devices@[i as int].id@, id);
        }
    }
}

/// The devices of `ds` that pass `f`, in order.
pub open spec fn searched(ds: Seq<DeviceRecord>, f: DeviceFilter) -> Seq<DeviceRecord> {
    ds.filter(|d: DeviceRecord| passes(d, f))
}

/// What a device search keeps: with an owner in the filter, only devices of
/// that owner, each also passing the rest of the filter; and every device of
/// that owner that passes the rest of the filter is kept.
pub proof fn lemma_search_by_owner(ds: Seq<DeviceRecord>, f: DeviceFilter, o: String)
    requires
        f.owner == Some(o),
    ensures
        forall|i: int| 0 <= i < searched(ds, f).len() ==> (#[trigger] searched(ds, f)[i]).owner@ == o@ && passes(
            searched(ds, f)[i],
            DeviceFilter { owner: None, ..f },
        ),
        forall|j: int| 0 <= j < ds.len() && (#[trigger] ds[j]).owner@ == o@ && passes(ds[j], DeviceFilter { owner: None, ..f })
            ==> searched(ds, f).contains(ds[j]),
{
    broadcast use vstd::seq_lib::group_filter_ensures;
    let r = searched(ds, f);
    assert forall|i: int| 0 <= i < r.len() implies (#[trigger] r[i]).owner@ == o@ && passes(r[i], DeviceFilter { owner: None, ..f }) by {
        assert(passes(r[i], f));
    }
    assert forall|j: int| 0 <= j < ds.len() && (#[trigger] ds[j]).owner@ == o@ && passes(ds[j], DeviceFilter { owner: None, ..f })
        implies r.contains(ds[j]) by {
        assert(passes(ds[j], f));
    }
}

} // verus!
