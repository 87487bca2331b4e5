//! User profiles and contacts. Profiles and contacts are appended to lists and
//! found through indices that map keys to positions; deleting removes the
//! index entries and keeps the record.
use vstd::prelude::*;
use crate::text::{clone_opt_text, clone_texts, texts_view, texts_contain, without_text, text_contains, to_lower,
    lowercase, utf8_of, occurs_in, Rank, lemma_utf8_injective, bytes_lt, lemma_bytes_lt_total, lemma_bytes_lt_asymmetric,
    rank_text, concat3, concat_text, decimal, decimal_text, drop_text, text_equal};
use std::hash::{Hash, Hasher};
use crate::sorted_map::{SortedMap, KeyFields, MapKey, text_key, pair_key, rank_pair, rank_single, lemma_text_key_injective,
    keys_of, map_of, strictly_sorted};
use crate::paging::{skip_take, keep_page};

verus! {

#[derive(PartialEq, Eq, Structural, Clone, Copy, Debug)]
pub enum LoginMethod {
    Wallet,
    Google,
    II,
}

#[derive(PartialEq, Eq, Structural, Clone, Copy, Debug)]
pub enum LoginStatus {
    Authenticated,
    Unauthenticated,
}

#[derive(Debug)]
pub struct UserProfile {
    pub user_id: String,
    pub principal_id: String,
    pub name: Option<String>,
    pub nickname: String,
    pub login_method: LoginMethod,
    pub login_status: LoginStatus,
    pub email: Option<String>,
    pub picture: Option<String>,
    pub wallet_address: Option<String>,
    pub devices: Vec<String>,
    pub created_at: u64,
    pub updated_at: u64,
    pub metadata: Option<String>,
}

/// A profile as a value: its device list taken by its contents.
#[verifier::ext_equal]
pub struct ProfileRecord {
    pub user_id: String,
    pub principal_id: String,
    pub name: Option<String>,
    pub nickname: String,
    pub login_method: LoginMethod,
    pub login_status: LoginStatus,
    pub email: Option<String>,
    pub picture: Option<String>,
    pub wallet_address: Option<String>,
    pub devices: Seq<String>,
    pub created_at: u64,
    pub updated_at: u64,
    pub metadata: Option<String>,
}

impl View for UserProfile {
    type V = ProfileRecord;

    open spec fn view(&self) -> ProfileRecord {
        ProfileRecord {
            user_id: self.user_id,
            principal_id: self.principal_id,
            name: self.name,
            nickname: self.nickname,
            login_method: self.login_method,
            login_status: self.login_status,
            email: self.email,
            picture: self.picture,
            wallet_address: self.wallet_address,
            devices: self.devices@,
            created_at: self.created_at,
            updated_at: self.updated_at,
            metadata: self.metadata,
        }
    }
}

impl Clone for UserProfile {
    fn clone(&self) -> (r: Self)
        ensures
            r@ == self@,
    {
        let devices = clone_texts(&self.devices);
        UserProfile {
            user_id: self.user_id.clone(),
            principal_id: self.principal_id.clone(),
            name: clone_opt_text(&self.name),
            nickname: self.nickname.clone(),
            login_method: self.login_method,
            login_status: self.login_status,
            email: clone_opt_text(&self.email),
            picture: clone_opt_text(&self.picture),
            wallet_address: clone_opt_text(&self.wallet_address),
            devices,
            created_at: self.created_at,
            updated_at: self.updated_at,
            metadata: clone_opt_text(&self.metadata),
        }
    }
}

/// The key of the principal index.
#[derive(Debug)]
pub struct PrincipalKey {
    pub principal_id: String,
}

/// The key of the user-id index.
#[derive(Debug)]
pub struct UserIdKey {
    pub user_id: String,
}

/// The key of the e-mail index.
#[derive(Debug)]
pub struct EmailKey {
    pub email: String,
}

impl MapKey for PrincipalKey {
    open spec fn key_fields(&self) -> KeyFields {
        text_key(self.principal_id@)
    }

    fn rank_key(&self, other: &Self) -> (r: Rank) {
        rank_single(self.principal_id.as_str(), other.principal_id.as_str())
    }
}

impl MapKey for UserIdKey {
    open spec fn key_fields(&self) -> KeyFields {
        text_key(self.user_id@)
    }

    fn rank_key(&self, other: &Self) -> (r: Rank) {
        rank_single(self.user_id.as_str(), other.user_id.as_str())
    }
}

impl MapKey for EmailKey {
    open spec fn key_fields(&self) -> KeyFields {
        text_key(self.email@)
    }

    fn rank_key(&self, other: &Self) -> (r: Rank) {
        rank_single(self.email.as_str(), other.email.as_str())
    }
}

#[derive(Debug)]
pub struct Contact {
    pub id: u64,
    pub owner_principal_id: String,
    pub contact_principal_id: String,
    pub name: String,
    pub nickname: Option<String>,
    pub contact_type: ContactType,
    pub status: ContactStatus,
    pub avatar: Option<String>,
    pub devices: Vec<String>,
    pub is_online: bool,
    pub created_at: u64,
    pub updated_at: u64,
    pub metadata: Option<String>,
}

/// A contact as a value: its device list taken by its contents.
#[verifier::ext_equal]
pub struct ContactRecord {
    pub id: u64,
    pub owner_principal_id: String,
    pub contact_principal_id: String,
    pub name: String,
    pub nickname: Option<String>,
    pub contact_type: ContactType,
    pub status: ContactStatus,
    pub avatar: Option<String>,
    pub devices: Seq<String>,
    pub is_online: bool,
    pub created_at: u64,
    pub updated_at: u64,
    pub metadata: Option<String>,
}

impl View for Contact {
    type V = ContactRecord;

    open spec fn view(&self) -> ContactRecord {
        ContactRecord {
            id: self.id,
            owner_principal_id: self.owner_principal_id,
            contact_principal_id: self.contact_principal_id,
            name: self.name,
            nickname: self.nickname,
            contact_type: self.contact_type,
            status: self.status,
            avatar: self.avatar,
            devices: self.devices@,
            is_online: self.is_online,
            created_at: self.created_at,
            updated_at: self.updated_at,
            metadata: self.metadata,
        }
    }
}

impl Clone for Contact {
    fn clone(&self) -> (r: Self)
        ensures
            r@ == self@,
    {
        let devices = clone_texts(&self.devices);
        Contact {
            id: self.id,
            owner_principal_id: self.owner_principal_id.clone(),
            contact_principal_id: self.contact_principal_id.clone(),
            name: self.name.clone(),
            nickname: clone_opt_text(&self.nickname),
            contact_type: self.contact_type,
            status: self.status,
            avatar: clone_opt_text(&self.avatar),
            devices,
            is_online: self.is_online,
            created_at: self.created_at,
            updated_at: self.updated_at,
            metadata: clone_opt_text(&self.metadata),
        }
    }
}

#[derive(PartialEq, Eq, Structural, Clone, Copy, Debug)]
pub enum ContactType {
    Friend,
    System,
    Business,
    Family,
}

#[derive(PartialEq, Eq, Structural, Clone, Copy, Debug)]
pub enum ContactStatus {
    Active,
    Pending,
    Blocked,
    Deleted,
}

/// The key of the contact index: owner, then contact.
#[derive(Debug)]
pub struct ContactOwnerKey {
    pub owner_principal_id: String,
    pub contact_principal_id: String,
}

impl MapKey for ContactOwnerKey {
    open spec fn key_fields(&self) -> KeyFields {
        pair_key(self.owner_principal_id@, self.contact_principal_id@)
    }

    fn rank_key(&self, other: &Self) -> (r: Rank) {
        rank_pair(
            self.owner_principal_id.as_str(),
            self.contact_principal_id.as_str(),
            other.owner_principal_id.as_str(),
            other.contact_principal_id.as_str(),
        )
    }
}

/// The key of the contact-name index: owner, then name.
#[derive(Debug)]
pub struct ContactNameKey {
    pub owner_principal_id: String,
    pub name: String,
}

impl MapKey for ContactNameKey {
    open spec fn key_fields(&self) -> KeyFields {
        pair_key(self.owner_principal_id@, self.name@)
    }

    fn rank_key(&self, other: &Self) -> (r: Rank) {
        rank_pair(
            self.owner_principal_id.as_str(),
            self.name.as_str(),
            other.owner_principal_id.as_str(),
            other.name.as_str(),
        )
    }
}

/// The element of `s` at position `i`, if there is one.
pub open spec fn at_index<T>(s: Seq<T>, i: u64) -> Option<T> {
    if i < s.len() {
        Some(s[i as int])
    } else {
        None
    }
}

/// `p` stamped at `now`, and given `now` as creation time when it had none.
pub open spec fn stamped_profile(p: ProfileRecord, now: u64) -> ProfileRecord {
    ProfileRecord { updated_at: now, created_at: if p.created_at == 0 { now } else { p.created_at }, ..p }
}

/// The entry of index `m` under the string `k`.
pub open spec fn lookup(m: Map<KeyFields, u64>, k: Seq<char>) -> Option<u64> {
    if m.contains_key(text_key(k)) {
        Some(m[text_key(k)])
    } else {
        None
    }
}

/// What the profile store holds: the profiles in the order they were added, and
/// the three indices from principal, user id and e-mail to positions.
#[verifier::ext_equal]
pub struct ProfilesView {
    pub profiles: Seq<ProfileRecord>,
    pub by_principal: Map<KeyFields, u64>,
    pub by_user_id: Map<KeyFields, u64>,
    pub by_email: Map<KeyFields, u64>,
}

impl ProfilesView {
    /// Every index points into the list, and the principal index files each
    /// profile under its own principal.
    pub open spec fn wf(self) -> bool {
        &&& forall|k: KeyFields| #[trigger] self.by_principal.contains_key(k) ==> {
            &&& self.by_principal[k] < self.profiles.len()
            &&& text_key(self.profiles[self.by_principal[k] as int].principal_id@) == k
        }
        &&& forall|k: KeyFields| #[trigger] self.by_user_id.contains_key(k) ==> self.by_user_id[k] < self.profiles.len()
        &&& forall|k: KeyFields| #[trigger] self.by_email.contains_key(k) ==> self.by_email[k] < self.profiles.len()
    }

    /// The profile that the principal index finds for `principal`.
    pub open spec fn by_principal_id(self, principal: Seq<char>) -> Option<ProfileRecord> {
        match lookup(self.by_principal, principal) {
            Some(i) => at_index(self.profiles, i),
            None => None,
        }
    }

    /// The profile filed under a principal carries that principal.
    pub proof fn lemma_principal_of(self, principal: Seq<char>)
        requires
            self.wf(),
        ensures
            self.by_principal_id(principal) matches Some(p) ==> p.principal_id@ == principal,
            lookup(self.by_principal, principal) is Some ==> self.by_principal_id(principal) is Some,
    {
        if self.by_principal.contains_key(text_key(principal)) {
            let i = self.by_principal[text_key(principal)];
            lemma_text_key_injective(self.profiles[i as int].principal_id@, principal);
        }
    }

    /// Where an upsert of a profile of `principal` writes.
    pub open spec fn position_for(self, principal: Seq<char>) -> u64 {
        match lookup(self.by_principal, principal) {
            Some(i) => i,
            None => self.profiles.len() as u64,
        }
    }

    /// The store after an upsert of `p` at `now`: the stamped profile replaces the
    /// one filed under its principal, or is appended, and the indices file it
    /// under its principal, its user id and its e-mail.
    pub open spec fn upserted(self, p: ProfileRecord, now: u64) -> ProfilesView {
        let q = stamped_profile(p, now);
        let i = self.position_for(p.principal_id@);
        ProfilesView {
            profiles: if lookup(self.by_principal, p.principal_id@) is Some {
                self.profiles.update(i as int, q)
            } else {
                self.profiles.push(q)
            },
            by_principal: self.by_principal.insert(text_key(p.principal_id@), i),
            by_user_id: self.by_user_id.insert(text_key(p.user_id@), i),
            by_email: match p.email {
                Some(e) => self.by_email.insert(text_key(e@), i),
                None => self.by_email,
            },
        }
    }

    /// After an upsert, the principal index finds the stored profile under its
    /// principal, and the store stays well formed.
    pub proof fn lemma_upsert_then_lookup(self, p: ProfileRecord, now: u64)
        requires
            self.wf(),
            self.profiles.len() < u64::MAX || lookup(self.by_principal, p.principal_id@) is Some,
        ensures
            self.upserted(p, now).by_principal_id(p.principal_id@) == Some(stamped_profile(p, now)),
            self.upserted(p, now).wf(),
    {
        let v = self.upserted(p, now);
        let kp = text_key(p.principal_id@);
        let i = self.position_for(p.principal_id@);
        assert forall|k: KeyFields| #[trigger] v.by_principal.contains_key(k) implies {
            &&& v.by_principal[k] < v.profiles.len()
            &&& text_key(v.profiles[v.by_principal[k] as int].principal_id@) == k
        } by {
            if k != kp && lookup(self.by_principal, p.principal_id@) is Some {
                if self.by_principal[k] == i {
                    assert(self.by_principal.contains_key(kp));
                }
            }
        }
    }

    /// The store after the profile of `principal` at position `i` lost its index
    /// entries: its principal, its user id and its e-mail. The profile stays.
    pub open spec fn unindexed(self, principal: Seq<char>, i: u64) -> ProfilesView {
        let p = self.profiles[i as int];
        ProfilesView {
            profiles: self.profiles,
            by_principal: self.by_principal.remove(text_key(principal)),
            by_user_id: self.by_user_id.remove(text_key(p.user_id@)),
            by_email: match p.email {
                Some(e) => self.by_email.remove(text_key(e@)),
                None => self.by_email,
            },
        }
    }
}

/// The user profiles, with their indices.
pub struct ProfileStore {
    profiles: Vec<UserProfile>,
    principal_index: SortedMap<PrincipalKey, u64>,
    user_id_index: SortedMap<UserIdKey, u64>,
    email_index: SortedMap<EmailKey, u64>,
}

impl View for ProfileStore {
    type V = ProfilesView;

    closed spec fn view(&self) -> ProfilesView {
        ProfilesView {
            profiles: self.profiles@.map_values(|p: UserProfile| p@),
            by_principal: self.principal_index.as_map(),
            by_user_id: self.user_id_index.as_map(),
            by_email: self.email_index.as_map(),
        }
    }
}

impl ProfileStore {
    pub closed spec fn wf(&self) -> bool {
        &&& self.principal_index.wf()
        &&& self.user_id_index.wf()
        &&& self.email_index.wf()
        &&& self@.wf()
    }

    /// A well-formed store holds a well-formed view: every index points into
    /// the list, and the principal index files each profile under its own
    /// principal.
    pub proof fn lemma_view_wf(&self)
        requires
            self.wf(),
        ensures
            self@.wf(),
    {
    }

    pub fn new() -> (s: Self)
        ensures
            s.wf(),
            s@.profiles == Seq::<ProfileRecord>::empty(),
            s@.by_principal == Map::<KeyFields, u64>::empty(),
            s@.by_user_id == Map::<KeyFields, u64>::empty(),
            s@.by_email == Map::<KeyFields, u64>::empty(),
    {
        let s = ProfileStore {
            profiles: Vec::new(),
            principal_index: SortedMap::new(),
            user_id_index: SortedMap::new(),
            email_index: SortedMap::new(),
        };
        assert(s@.profiles =~= Seq::<ProfileRecord>::empty());
        s
    }

    /// The position that the principal index gives for `principal`.
    fn principal_position(&self, principal: &String) -> (r: Option<u64>)
        requires
            self.wf(),
        ensures
            r == lookup(self@.by_principal, principal@),
    {
        let key = PrincipalKey { principal_id: principal.clone() };
        match self.principal_index.get(&key) {
            Some(i) => Some(*i),
            None => None,
        }
    }

    /// Stores a profile stamped at `now`: it replaces the profile filed under the
    /// same principal, or is appended; its principal, user id and e-mail are filed
    /// under its position, which is returned.
    pub fn upsert_user_profile(&mut self, profile: UserProfile, now: u64) -> (r: Result<u64, String>)
        requires
            old(self).wf(),
            old(self)@.profiles.len() < u64::MAX || lookup(old(self)@.by_principal, profile.principal_id@) is Some,
        ensures
            final(self).wf(),
            final(self)@ == old(self)@.upserted(profile@, now),
            r == Ok::<u64, String>(old(self)@.position_for(profile.principal_id@)),
    {
        let ghost old_view = self@;
        let mut p = profile;
        p.updated_at = now;
        if p.created_at == 0 {
            p.created_at = now;
        }
        let existing = self.principal_position(&p.principal_id);
        let ghost q = p;
        assert(q@ == stamped_profile(profile@, now));
        let principal_key = PrincipalKey { principal_id: p.principal_id.clone() };
        let user_key = UserIdKey { user_id: p.user_id.clone() };
        let email_key = match &p.email {
            Some(e) => Some(EmailKey { email: e.clone() }),
            None => None,
        };
        let index = match existing {
            Some(i) => {
                assert(i < self.profiles@.len());
                self.profiles.set(i as usize, p);
                i
            },
            None => {
                let i = self.profiles.len() as u64;
                self.profiles.push(p);
                i
            },
        };
        self.principal_index.insert(principal_key, index);
        self.user_id_index.insert(user_key, index);
        match email_key {
            Some(k) => {
                self.email_index.insert(k, index);
            },
            None => {},
        }
        proof {
            let target = old_view.upserted(profile@, now);
            assert(self@.profiles =~= target.profiles);
            assert(self@.by_principal =~= target.by_principal);
            assert(self@.by_user_id =~= target.by_user_id);
            assert(self@.by_email =~= target.by_email);
            assert forall|k: KeyFields| #[trigger] self@.by_principal.contains_key(k) implies {
                &&& self@.by_principal[k] < self@.profiles.len()
                &&& text_key(self@.profiles[self@.by_principal[k] as int].principal_id@) == k
            } by {
                if k != text_key(profile.principal_id@) && existing is Some {
                    assert(old_view.by_principal.contains_key(k));
                    if old_view.by_principal[k] == index {
                        assert(old_view.by_principal.contains_key(text_key(profile.principal_id@)));
                    }
                }
            }
        }
        Ok(index)
    }

    /// The profile at position `index`.
    pub fn get_user_profile(&self, index: u64) -> (r: Option<UserProfile>)
        requires
            self.wf(),
        ensures
            r is Some == (index < self@.profiles.len()),
            r matches Some(p) ==> p@ == self@.profiles[index as int],
    {
        if (index as u128) < (self.profiles.len() as u128) {
            Some(self.profiles[index as usize].clone())
        } else {
            None
        }
    }

    /// The profile filed under `principal_id`.
    pub fn get_user_profile_by_principal(&self, principal_id: String) -> (r: Option<UserProfile>)
        requires
            self.wf(),
        ensures
            r is Some == self@.by_principal_id(principal_id@) is Some,
            r matches Some(p) ==> Some(p@) == self@.by_principal_id(principal_id@),
    {
        match self.principal_position(&principal_id) {
            Some(i) => self.get_user_profile(i),
            None => None,
        }
    }

    /// The profile filed under `user_id`.
    pub fn get_user_profile_by_user_id(&self, user_id: String) -> (r: Option<UserProfile>)
        requires
            self.wf(),
        ensures
            lookup(self@.by_user_id, user_id@) is None ==> r is None,
            lookup(self@.by_user_id, user_id@) matches Some(i) ==> r is Some && r->0@ == self@.profiles[i as int],
    {
        let key = UserIdKey { user_id };
        match self.user_id_index.get(&key) {
            Some(i) => self.get_user_profile(*i),
            None => None,
        }
    }

    /// The profile filed under `email`.
    pub fn get_user_profile_by_email(&self, email: String) -> (r: Option<UserProfile>)
        requires
            self.wf(),
        ensures
            lookup(self@.by_email, email@) is None ==> r is None,
            lookup(self@.by_email, email@) matches Some(i) ==> r is Some && r->0@ == self@.profiles[i as int],
    {
        let key = EmailKey { email };
        match self.email_index.get(&key) {
            Some(i) => self.get_user_profile(*i),
            None => None,
        }
    }

    /// Stores `edited`, the changed profile of `principal_id`, at `now`, and hands
    /// it back.
    fn edit_profile(&mut self, principal_id: &String, edited: UserProfile, now: u64) -> (r: Result<UserProfile, String>)
        requires
            old(self).wf(),
            old(self)@.by_principal_id(principal_id@) is Some,
            edited.principal_id@ == principal_id@,
        ensures
            final(self).wf(),
            r matches Ok(q) && q@ == edited@,
            final(self)@ == old(self)@.upserted(edited@, now),
    {
        let out = edited.clone();
        proof {
            old(self)@.lemma_principal_of(principal_id@);
        }
        let _ = self.upsert_user_profile(edited, now);
        Ok(out)
    }

    /// Gives the profile of `principal_id` a new nickname, stamped at `now`.
    pub fn update_user_nickname(&mut self, principal_id: String, nickname: String, now: u64) -> (r: Result<UserProfile, String>)
        requires
            old(self).wf(),
        ensures
            final(self).wf(),
            match old(self)@.by_principal_id(principal_id@) {
                None => r matches Err(e) && e@ == "User profile not found"@ && final(self)@ == old(self)@,
                Some(p) => {
                    let q = ProfileRecord { nickname, updated_at: now, ..p };
                    &&& r matches Ok(u) && u@ == q
                    &&& final(self)@ == old(self)@.upserted(q, now)
                },
            },
    {
        match self.get_user_profile_by_principal(principal_id.clone()) {
            Some(profile) => {
                proof {
                    self@.lemma_principal_of(principal_id@);
                }
                let mut profile = profile;
                profile.nickname = nickname;
                profile.updated_at = now;
                self.edit_profile(&principal_id, profile, now)
            },
            None => Err("User profile not found".to_string()),
        }
    }

    /// Adds `device_id` to the devices of the profile of `principal_id`, stamped at
    /// `now`; a device already listed leaves the profile as it is.
    pub fn add_user_device(&mut self, principal_id: String, device_id: String, now: u64) -> (r: Result<UserProfile, String>)
        requires
            old(self).wf(),
        ensures
            final(self).wf(),
            match old(self)@.by_principal_id(principal_id@) {
                None => r matches Err(e) && e@ == "User profile not found"@ && final(self)@ == old(self)@,
                Some(p) => if texts_view(p.devices).contains(device_id@) {
                    &&& r matches Ok(u) && u@ == p
                    &&& final(self)@ == old(self)@
                } else {
                    let q = ProfileRecord { devices: p.devices.push(device_id), updated_at: now, ..p };
                    &&& r matches Ok(u) && u@ == q
                    &&& final(self)@ == old(self)@.upserted(q, now)
                },
            },
    {
        match self.get_user_profile_by_principal(principal_id.clone()) {
            Some(profile) => {
                proof {
                    self@.lemma_principal_of(principal_id@);
                }
                if texts_contain(&profile.devices, &device_id) {
                    return Ok(profile);
                }
                let mut profile = profile;
                profile.devices.push(device_id);
                profile.updated_at = now;
                self.edit_profile(&principal_id, profile, now)
            },
            None => Err("User profile not found".to_string()),
        }
    }

    /// Removes `device_id` from the devices of the profile of `principal_id`,
    /// stamped at `now`.
    pub fn remove_user_device(&mut self, principal_id: String, device_id: String, now: u64) -> (r: Result<UserProfile, String>)
        requires
            old(self).wf(),
        ensures
            final(self).wf(),
            match old(self)@.by_principal_id(principal_id@) {
                None => r matches Err(e) && e@ == "User profile not found"@ && final(self)@ == old(self)@,
                Some(p) => {
                    let q = ProfileRecord {
                        devices: drop_text(p.devices, device_id@),
                        updated_at: now,
                        ..p
                    };
                    &&& r matches Ok(u) && u@ == q
                    &&& final(self)@ == old(self)@.upserted(q, now)
                },
            },
    {
        match self.get_user_profile_by_principal(principal_id.clone()) {
            Some(profile) => {
                proof {
                    self@.lemma_principal_of(principal_id@);
                }
                let mut profile = profile;
                profile.devices = without_text(&profile.devices, &device_id);
                profile.updated_at = now;
                self.edit_profile(&principal_id, profile, now)
            },
            None => Err("User profile not found".to_string()),
        }
    }

    /// Replaces the devices of the profile of `principal_id`, stamped at `now`.
    pub fn update_user_devices(&mut self, principal_id: String, devices: Vec<String>, now: u64) -> (r: Result<UserProfile, String>)
        requires
            old(self).wf(),
        ensures
            final(self).wf(),
            match old(self)@.by_principal_id(principal_id@) {
                None => r matches Err(e) && e@ == "User profile not found"@ && final(self)@ == old(self)@,
                Some(p) => {
                    let q = ProfileRecord { devices: devices@, updated_at: now, ..p };
                    &&& r matches Ok(u) && u@ == q
                    &&& final(self)@ == old(self)@.upserted(q, now)
                },
            },
    {
        match self.get_user_profile_by_principal(principal_id.clone()) {
            Some(profile) => {
                proof {
                    self@.lemma_principal_of(principal_id@);
                }
                let mut profile = profile;
                profile.devices = devices;
                profile.updated_at = now;
                self.edit_profile(&principal_id, profile, now)
            },
            None => Err("User profile not found".to_string()),
        }
    }

    /// At most `limit` profiles from position `offset` on.
    pub fn get_user_profiles_paginated(&self, offset: u64, limit: usize) -> (r: Vec<UserProfile>)
        requires
            self.wf(),
            offset + limit <= u64::MAX,
        ensures
            r@.map_values(|p: UserProfile| p@) == (if offset >= self@.profiles.len() {
                Seq::<ProfileRecord>::empty()
            } else {
                self@.profiles.subrange(
                    offset as int,
                    if offset + limit < self@.profiles.len() { offset + limit } else { self@.profiles.len() as int },
                )
            }),
    {
        let total = self.profiles.len() as u64;
        let ghost all = self@.profiles;
        if offset >= total {
            let out: Vec<UserProfile> = Vec::new();
            assert(out@.map_values(|p: UserProfile| p@) =~= Seq::<ProfileRecord>::empty());
            return out;
        }
        let end = if offset + (limit as u64) < total { offset + (limit as u64) } else { total };
        let mut out: Vec<UserProfile> = Vec::new();
        let mut i = offset;
        while i < end
            invariant
                offset <= i <= end,
                end <= total,
                total == self.profiles@.len(),
                self.profiles@.len() == self.profiles.len(),
                all == self@.profiles,
                all.len() == total,
                out@.map_values(|p: UserProfile| p@) == all.subrange(offset as int, i as int),
            decreases end - i,
        {
            let k = i as usize;
            assert(k == i);
            let item = self.profiles[k].clone();
            let ghost before = out@;
            out.push(item);
            proof {
                assert(before.map_values(|p: UserProfile| p@) == all.subrange(offset as int, i as int));
                assert(out@ == before.push(item));
                assert(out@.map_values(|p: UserProfile| p@) =~= before.map_values(|p: UserProfile| p@).push(item@));
                assert(all.subrange(offset as int, i + 1) =~= all.subrange(offset as int, i as int).push(all[i as int]));
            }
            i = i + 1;
        }
        out
    }

    /// Takes the profile of `principal_id` out of the indices: its principal, its
    /// user id and its e-mail. The profile itself stays in the list.
    pub fn delete_user_profile(&mut self, principal_id: String) -> (r: Result<bool, String>)
        requires
            old(self).wf(),
        ensures
            final(self).wf(),
            match lookup(old(self)@.by_principal, principal_id@) {
                None => r == Ok::<bool, String>(false) && final(self)@ == old(self)@,
                Some(i) => r == Ok::<bool, String>(true) && final(self)@ == old(self)@.unindexed(principal_id@, i),
            },
    {
        let ghost old_view = self@;
        match self.principal_position(&principal_id) {
            None => Ok(false),
            Some(i) => {
                let n = self.profiles.len();
                assert(i < n);
                let k = i as usize;
                assert(k == i);
                let user_key = UserIdKey { user_id: self.profiles[k].user_id.clone() };
                let email_key = match &self.profiles[k].email {
                    Some(e) => Some(EmailKey { email: e.clone() }),
                    None => None,
                };
                self.principal_index.remove(&PrincipalKey { principal_id });
                self.user_id_index.remove(&user_key);
                match email_key {
                    Some(key) => {
                        self.email_index.remove(&key);
                    },
                    None => {},
                }
                proof {
                    let target = old_view.unindexed(principal_id@, i);
                    assert(self@.profiles =~= target.profiles);
                    assert(self@.by_principal =~= target.by_principal);
                    assert(self@.by_user_id =~= target.by_user_id);
                    assert(self@.by_email =~= target.by_email);
                }
                Ok(true)
            },
        }
    }

    /// The number of profiles ever stored.
    pub fn get_total_user_profiles(&self) -> (n: u64)
        ensures
            n == self@.profiles.len(),
    {
        self.profiles.len() as u64
    }
}

/// The entry of index `m` under the pair of strings `(a, b)`.
pub open spec fn pair_lookup(m: Map<KeyFields, u64>, a: Seq<char>, b: Seq<char>) -> Option<u64> {
    if m.contains_key(pair_key(a, b)) {
        Some(m[pair_key(a, b)])
    } else {
        None
    }
}

/// The devices that a stored contact gets: its own, or, when it has none, those of
/// the profile of its contact principal.
pub open spec fn filled_devices(c: ContactRecord, profiles: ProfilesView) -> Seq<String> {
    if c.devices.len() == 0 {
        match profiles.by_principal_id(c.contact_principal_id@) {
            Some(p) => p.devices,
            None => c.devices,
        }
    } else {
        c.devices
    }
}

/// `c` as an upsert at `now` stores it.
pub open spec fn stamped_contact(c: ContactRecord, now: u64, profiles: ProfilesView) -> ContactRecord {
    ContactRecord {
        updated_at: now,
        created_at: if c.created_at == 0 { now } else { c.created_at },
        devices: filled_devices(c, profiles),
        ..c
    }
}

/// Whether `c` belongs to `owner`.
pub open spec fn owned_by(c: ContactRecord, owner: Seq<char>) -> bool {
    c.owner_principal_id@ == owner
}

/// The contacts of `owner`, in order.
pub open spec fn owned_contacts(s: Seq<ContactRecord>, owner: Seq<char>) -> Seq<ContactRecord> {
    s.filter(|c: ContactRecord| owned_by(c, owner))
}

/// Whether the lower-cased `query` occurs in the lower-cased name or nickname of `c`.
pub open spec fn name_matches(c: ContactRecord, query: Seq<char>) -> bool {
    ||| occurs_in(utf8_of(lowercase(query)), utf8_of(lowercase(c.name@)))
    ||| c.nickname matches Some(n) && occurs_in(utf8_of(lowercase(query)), utf8_of(lowercase(n@)))
}

/// The contacts of `owner` whose name or nickname matches `query`, in order.
pub open spec fn found_contacts(s: Seq<ContactRecord>, owner: Seq<char>, query: Seq<char>) -> Seq<ContactRecord> {
    s.filter(|c: ContactRecord| owned_by(c, owner) && name_matches(c, query))
}

/// The name that a contact record takes from a profile.
pub open spec fn shown_name(p: ProfileRecord) -> Seq<char> {
    match p.name {
        Some(n) => n@,
        None => "Unknown User"@,
    }
}

/// Whether `c` is the friend record of `owner` for the profile `p` of `contact`, as
/// adding a friend writes it.
pub open spec fn friend_record(c: ContactRecord, owner: String, contact: String, nickname: Option<String>, p: ProfileRecord) -> bool {
    &&& c == ContactRecord {
        id: 0,
        owner_principal_id: owner,
        contact_principal_id: contact,
        name: c.name,
        nickname,
        contact_type: ContactType::Friend,
        status: ContactStatus::Active,
        avatar: p.picture,
        devices: p.devices,
        is_online: false,
        created_at: 0,
        updated_at: 0,
        metadata: None,
    }
    &&& c.name@ == shown_name(p)
}

/// What the contact store holds: the contacts in the order they were added, the
/// index from (owner, contact principal) to positions and the index from
/// (owner, name) to positions.
#[verifier::ext_equal]
pub struct ContactsView {
    pub contacts: Seq<ContactRecord>,
    pub by_owner: Map<KeyFields, u64>,
    pub by_name: Map<KeyFields, u64>,
}

impl ContactsView {
    /// Every index points into the list, and the owner index files each contact
    /// under its own owner and contact principal.
    pub open spec fn wf(self) -> bool {
        &&& forall|k: KeyFields| #[trigger] self.by_owner.contains_key(k) ==> {
            &&& self.by_owner[k] < self.contacts.len()
            &&& pair_key(
                self.contacts[self.by_owner[k] as int].owner_principal_id@,
                self.contacts[self.by_owner[k] as int].contact_principal_id@,
            ) == k
        }
        &&& forall|k: KeyFields| #[trigger] self.by_name.contains_key(k) ==> self.by_name[k] < self.contacts.len()
    }

    /// The contact that the owner index files under `(owner, contact)`.
    pub open spec fn by_pair(self, owner: Seq<char>, contact: Seq<char>) -> Option<ContactRecord> {
        match pair_lookup(self.by_owner, owner, contact) {
            Some(i) => at_index(self.contacts, i),
            None => None,
        }
    }

    /// Where an upsert of `c` writes.
    pub open spec fn position_for(self, c: ContactRecord) -> u64 {
        match pair_lookup(self.by_owner, c.owner_principal_id@, c.contact_principal_id@) {
            Some(i) => i,
            None => self.contacts.len() as u64,
        }
    }

    /// The store after an upsert of `c` at `now`: the stamped contact replaces the
    /// one filed under its owner and contact principal, or is appended, and both
    /// indices file it under its position.
    pub open spec fn upserted(self, c: ContactRecord, now: u64, profiles: ProfilesView) -> ContactsView {
        let q = stamped_contact(c, now, profiles);
        let i = self.position_for(c);
        ContactsView {
            contacts: if pair_lookup(self.by_owner, c.owner_principal_id@, c.contact_principal_id@) is Some {
                self.contacts.update(i as int, q)
            } else {
                self.contacts.push(q)
            },
            by_owner: self.by_owner.insert(pair_key(c.owner_principal_id@, c.contact_principal_id@), i),
            by_name: self.by_name.insert(pair_key(c.owner_principal_id@, c.name@), i),
        }
    }

    /// After an upsert, the owner index finds the stored contact under its owner
    /// and contact principal, and the store stays well formed.
    pub proof fn lemma_upsert_then_lookup(self, c: ContactRecord, now: u64, profiles: ProfilesView)
        requires
            self.wf(),
            self.contacts.len() < u64::MAX || pair_lookup(self.by_owner, c.owner_principal_id@, c.contact_principal_id@) is Some,
        ensures
            self.upserted(c, now, profiles).by_pair(c.owner_principal_id@, c.contact_principal_id@) == Some(
                stamped_contact(c, now, profiles),
            ),
            self.upserted(c, now, profiles).wf(),
    {
        let v = self.upserted(c, now, profiles);
        let kc = pair_key(c.owner_principal_id@, c.contact_principal_id@);
        let i = self.position_for(c);
        assert forall|k: KeyFields| #[trigger] v.by_owner.contains_key(k) implies {
            &&& v.by_owner[k] < v.contacts.len()
            &&& pair_key(
                v.contacts[v.by_owner[k] as int].owner_principal_id@,
                v.contacts[v.by_owner[k] as int].contact_principal_id@,
            ) == k
        } by {
            if k != kc && pair_lookup(self.by_owner, c.owner_principal_id@, c.contact_principal_id@) is Some {
                if self.by_owner[k] == i {
                    assert(self.by_owner.contains_key(kc));
                }
            }
        }
    }

    /// The store after the contact at `i` lost its entries in both indices.
    pub open spec fn unindexed(self, owner: Seq<char>, contact: Seq<char>, i: u64) -> ContactsView {
        ContactsView {
            contacts: self.contacts,
            by_owner: self.by_owner.remove(pair_key(owner, contact)),
            by_name: self.by_name.remove(pair_key(owner, self.contacts[i as int].name@)),
        }
    }

    /// The contact filed under a pair carries that pair.
    pub proof fn lemma_pair_of(self, owner: Seq<char>, contact: Seq<char>)
        requires
            self.wf(),
        ensures
            self.by_pair(owner, contact) matches Some(c) ==> c.owner_principal_id@ == owner && c.contact_principal_id@
                == contact,
            pair_lookup(self.by_owner, owner, contact) is Some ==> self.by_pair(owner, contact) is Some,
    {
        if self.by_owner.contains_key(pair_key(owner, contact)) {
            let c = self.contacts[self.by_owner[pair_key(owner, contact)] as int];
            let k1 = pair_key(c.owner_principal_id@, c.contact_principal_id@);
            let k2 = pair_key(owner, contact);
            assert(k1[0] == k2[0] && k1[1] == k2[1]);
            lemma_utf8_injective(c.owner_principal_id@, owner);
            lemma_utf8_injective(c.contact_principal_id@, contact);
        }
    }
}

/// The contacts, with their indices.
pub struct ContactStore {
    contacts: Vec<Contact>,
    owner_index: SortedMap<ContactOwnerKey, u64>,
    name_index: SortedMap<ContactNameKey, u64>,
}

impl View for ContactStore {
    type V = ContactsView;

    closed spec fn view(&self) -> ContactsView {
        ContactsView {
            contacts: self.contacts@.map_values(|c: Contact| c@),
            by_owner: self.owner_index.as_map(),
            by_name: self.name_index.as_map(),
        }
    }
}

impl ContactStore {
    pub closed spec fn wf(&self) -> bool {
        &&& self.owner_index.wf()
        &&& self.name_index.wf()
        &&& self@.wf()
    }

    /// A well-formed store holds a well-formed view: every index points into
    /// the list, and the owner index files each contact under its own pair.
    pub proof fn lemma_view_wf(&self)
        requires
            self.wf(),
        ensures
            self@.wf(),
    {
    }

    pub fn new() -> (s: Self)
        ensures
            s.wf(),
            s@.contacts == Seq::<ContactRecord>::empty(),
            s@.by_owner == Map::<KeyFields, u64>::empty(),
            s@.by_name == Map::<KeyFields, u64>::empty(),
    {
        let s = ContactStore { contacts: Vec::new(), owner_index: SortedMap::new(), name_index: SortedMap::new() };
        assert(s@.contacts =~= Seq::<ContactRecord>::empty());
        s
    }

    /// The position that the owner index gives for `(owner, contact)`.
    fn pair_position(&self, owner: &String, contact: &String) -> (r: Option<u64>)
        requires
            self.wf(),
        ensures
            r == pair_lookup(self@.by_owner, owner@, contact@),
    {
        let key = ContactOwnerKey { owner_principal_id: owner.clone(), contact_principal_id: contact.clone() };
        match self.owner_index.get(&key) {
            Some(i) => Some(*i),
            None => None,
        }
    }

    /// Stores a contact stamped at `now`, with the devices of its contact's profile
    /// when it lists none: it replaces the contact filed under the same owner and
    /// contact principal, or is appended; both indices file it under its position,
    /// which is returned.
    pub fn upsert_contact(&mut self, contact: Contact, now: u64, profiles: &ProfileStore) -> (r: Result<u64, String>)
        requires
            old(self).wf(),
            profiles.wf(),
            old(self)@.contacts.len() < u64::MAX || pair_lookup(
                old(self)@.by_owner,
                contact.owner_principal_id@,
                contact.contact_principal_id@,
            ) is Some,
        ensures
            final(self).wf(),
            final(self)@ == old(self)@.upserted(contact@, now, profiles@),
            r == Ok::<u64, String>(old(self)@.position_for(contact@)),
    {
        let ghost old_view = self@;
        let mut c = contact;
        c.updated_at = now;
        if c.created_at == 0 {
            c.created_at = now;
        }
        if c.devices.len() == 0 {
            match profiles.get_user_profile_by_principal(c.contact_principal_id.clone()) {
                Some(p) => {
                    c.devices = p.devices;
                },
                None => {},
            }
        }
        let ghost q = c;
        assert(q@ == stamped_contact(contact@, now, profiles@));
        let existing = self.pair_position(&c.owner_principal_id, &c.contact_principal_id);
        let owner_key = ContactOwnerKey {
            owner_principal_id: c.owner_principal_id.clone(),
            contact_principal_id: c.contact_principal_id.clone(),
        };
        let name_key = ContactNameKey { owner_principal_id: c.owner_principal_id.clone(), name: c.name.clone() };
        let n = self.contacts.len();
        let index = match existing {
            Some(i) => {
                assert(i < n);
                self.contacts.set(i as usize, c);
                i
            },
            None => {
                self.contacts.push(c);
                n as u64
            },
        };
        self.owner_index.insert(owner_key, index);
        self.name_index.insert(name_key, index);
        proof {
            let target = old_view.upserted(contact@, now, profiles@);
            assert(self@.contacts =~= target.contacts);
            assert(self@.by_owner =~= target.by_owner);
            assert(self@.by_name =~= target.by_name);
            let kc = pair_key(contact.owner_principal_id@, contact.contact_principal_id@);
            assert forall|k: KeyFields| #[trigger] self@.by_owner.contains_key(k) implies {
                &&& self@.by_owner[k] < self@.contacts.len()
                &&& pair_key(
                    self@.contacts[self@.by_owner[k] as int].owner_principal_id@,
                    self@.contacts[self@.by_owner[k] as int].contact_principal_id@,
                ) == k
            } by {
                if k != kc && existing is Some {
                    assert(old_view.by_owner.contains_key(k));
                    if old_view.by_owner[k] == index {
                        assert(old_view.by_owner.contains_key(kc));
                    }
                }
            }
        }
        Ok(index)
    }

    /// Adds `contact_principal_id` as a friend of `owner_principal_id` with the
    /// given nickname, and `owner_principal_id` as a friend of
    /// `contact_principal_id` without one, each named and pictured after the other's
    /// profile; returns the position of the first record. Both profiles must
    /// exist, and a user cannot be added as a contact of themself.
    pub fn create_contact_from_principal_id(
        &mut self,
        owner_principal_id: String,
        contact_principal_id: String,
        nickname: Option<String>,
        now: u64,
        profiles: &ProfileStore,
    ) -> (r: Result<u64, String>)
        requires
            old(self).wf(),
            profiles.wf(),
            old(self)@.contacts.len() + 1 < u64::MAX,
        ensures
            final(self).wf(),
            profiles@.by_principal_id(contact_principal_id@) is None ==> {
                &&& r matches Err(e) && e@ == "Contact user profile not found for the given principal ID"@
                &&& final(self)@ == old(self)@
            },
            profiles@.by_principal_id(contact_principal_id@) is Some && profiles@.by_principal_id(owner_principal_id@) is None ==> {
                &&& r matches Err(e) && e@ == "Owner user profile not found for the given principal ID"@
                &&& final(self)@ == old(self)@
            },
            profiles@.by_principal_id(contact_principal_id@) is Some && profiles@.by_principal_id(owner_principal_id@) is Some
                && owner_principal_id@ == contact_principal_id@ ==> {
                &&& r matches Err(e) && e@ == "Cannot add yourself as a contact"@
                &&& final(self)@ == old(self)@
            },
            profiles@.by_principal_id(contact_principal_id@) matches Some(pc) ==> profiles@.by_principal_id(owner_principal_id@) matches Some(
                po,
            ) ==> owner_principal_id@ != contact_principal_id@ ==> exists|c1: ContactRecord, c2: ContactRecord|
                {
                    &&& friend_record(c1, owner_principal_id, contact_principal_id, nickname, pc)
                    &&& friend_record(c2, contact_principal_id, owner_principal_id, None, po)
                    &&& r == Ok::<u64, String>(old(self)@.position_for(c1))
                    &&& final(self)@ == old(self)@.upserted(c1, now, profiles@).upserted(c2, now, profiles@)
                },
    {
        let contact_profile = match profiles.get_user_profile_by_principal(contact_principal_id.clone()) {
            Some(p) => p,
            None => {
                return Err("Contact user profile not found for the given principal ID".to_string());
            },
        };
        let owner_profile = match profiles.get_user_profile_by_principal(owner_principal_id.clone()) {
            Some(p) => p,
            None => {
                return Err("Owner user profile not found for the given principal ID".to_string());
            },
        };
        if text_equal(owner_principal_id.as_str(), contact_principal_id.as_str()) {
            return Err("Cannot add yourself as a contact".to_string());
        }
        let contact_name = match &contact_profile.name {
            Some(n) => n.clone(),
            None => "Unknown User".to_string(),
        };
        let owner_name = match &owner_profile.name {
            Some(n) => n.clone(),
            None => "Unknown User".to_string(),
        };
        let owner_to_contact = Contact {
            id: 0,
            owner_principal_id: owner_principal_id.clone(),
            contact_principal_id: contact_principal_id.clone(),
            name: contact_name,
            nickname: nickname,
            contact_type: ContactType::Friend,
            status: ContactStatus::Active,
            avatar: contact_profile.picture,
            devices: contact_profile.devices,
            is_online: false,
            created_at: 0,
            updated_at: 0,
            metadata: None,
        };
        let contact_to_owner = Contact {
            id: 0,
            owner_principal_id: contact_principal_id.clone(),
            contact_principal_id: owner_principal_id.clone(),
            name: owner_name,
            nickname: None,
            contact_type: ContactType::Friend,
            status: ContactStatus::Active,
            avatar: owner_profile.picture,
            devices: owner_profile.devices,
            is_online: false,
            created_at: 0,
            updated_at: 0,
            metadata: None,
        };
        let ghost c1 = owner_to_contact@;
        let ghost c2 = contact_to_owner@;
        let ghost start = self@;
        let first = self.upsert_contact(owner_to_contact, now, profiles);
        let _ = self.upsert_contact(contact_to_owner, now, profiles);
        proof {
            assert(friend_record(c1, owner_principal_id, contact_principal_id, nickname, profiles@.by_principal_id(contact_principal_id@)->0));
            assert(friend_record(c2, contact_principal_id, owner_principal_id, None, profiles@.by_principal_id(owner_principal_id@)->0));
        }
        first
    }

    /// The contacts of `owner_principal_id`, in order.
    pub fn get_contacts_by_owner(&self, owner_principal_id: String) -> (r: Vec<Contact>)
        requires
            self.wf(),
        ensures
            r@.map_values(|c: Contact| c@) == owned_contacts(self@.contacts, owner_principal_id@),
    {
        let mut out: Vec<Contact> = Vec::new();
        let n = self.contacts.len();
        let ghost all = self@.contacts;
        for i in 0..n
            invariant
                n == self.contacts@.len(),
                all == self@.contacts,
                out@.map_values(|c: Contact| c@) == owned_contacts(all.take(i as int), owner_principal_id@),
        {
            proof {
                reveal_with_fuel(Seq::<_>::filter, 1);
                assert(all.take(i + 1).drop_last() =~= all.take(i as int));
                assert(all[i as int] == self.contacts@[i as int]@);
            }
            if self.contacts[i].owner_principal_id == owner_principal_id {
                let c = self.contacts[i].clone();
                let ghost before = out@;
                out.push(c);
                proof {
                    assert(out@.map_values(|c: Contact| c@) =~= before.map_values(|c: Contact| c@).push(c@));
                }
            }
        }
        assert(all.take(n as int) =~= all);
        out
    }

    /// At most `limit` contacts of `owner_principal_id` from position `offset` of
    /// that list on.
    pub fn get_contacts_by_owner_paginated(&self, owner_principal_id: String, offset: u64, limit: usize) -> (r: Vec<Contact>)
        requires
            self.wf(),
            offset + limit <= u64::MAX,
        ensures
            r@.map_values(|c: Contact| c@) == skip_take(
                owned_contacts(self@.contacts, owner_principal_id@),
                offset as int,
                limit as int,
            ),
    {
        let all = self.get_contacts_by_owner(owner_principal_id);
        let ghost owned = all@;
        if offset >= all.len() as u64 {
            let out: Vec<Contact> = Vec::new();
            assert(out@.map_values(|c: Contact| c@) =~= skip_take(owned.map_values(|c: Contact| c@), offset as int, limit as int));
            return out;
        }
        let out = keep_page(all, offset as usize, limit);
        assert(out@.map_values(|c: Contact| c@) =~= skip_take(owned.map_values(|c: Contact| c@), offset as int, limit as int));
        out
    }

    /// The contact at position `contact_id`.
    pub fn get_contact_by_id(&self, contact_id: u64) -> (r: Option<Contact>)
        requires
            self.wf(),
        ensures
            r is Some == (contact_id < self@.contacts.len()),
            r matches Some(c) ==> c@ == self@.contacts[contact_id as int],
    {
        if (contact_id as u128) < (self.contacts.len() as u128) {
            Some(self.contacts[contact_id as usize].clone())
        } else {
            None
        }
    }

    /// The contact filed under `(owner_principal_id, contact_principal_id)`.
    pub fn get_contact_by_principal_ids(&self, owner_principal_id: String, contact_principal_id: String) -> (r: Option<Contact>)
        requires
            self.wf(),
        ensures
            r is Some == self@.by_pair(owner_principal_id@, contact_principal_id@) is Some,
            r matches Some(c) ==> Some(c@) == self@.by_pair(owner_principal_id@, contact_principal_id@),
    {
        match self.pair_position(&owner_principal_id, &contact_principal_id) {
            Some(i) => self.get_contact_by_id(i),
            None => None,
        }
    }

    /// The contacts of `owner_principal_id` whose name or nickname, lower-cased,
    /// holds `name_query` lower-cased, in order.
    pub fn search_contacts_by_name(&self, owner_principal_id: String, name_query: String) -> (r: Vec<Contact>)
        requires
            self.wf(),
        ensures
            r@.map_values(|c: Contact| c@) == found_contacts(self@.contacts, owner_principal_id@, name_query@),
    {
        let query = to_lower(name_query.as_str());
        let mut out: Vec<Contact> = Vec::new();
        let n = self.contacts.len();
        let ghost all = self@.contacts;
        for i in 0..n
            invariant
                n == self.contacts@.len(),
                all == self@.contacts,
                query@ == lowercase(name_query@),
                out@.map_values(|c: Contact| c@) == found_contacts(all.take(i as int), owner_principal_id@, name_query@),
        {
            proof {
                reveal_with_fuel(Seq::<_>::filter, 1);
                assert(all.take(i + 1).drop_last() =~= all.take(i as int));
                assert(all[i as int] == self.contacts@[i as int]@);
            }
            let c = &self.contacts[i];
            let mut hit = false;
            if c.owner_principal_id == owner_principal_id {
                let name = to_lower(c.name.as_str());
                if text_contains(name.as_str(), query.as_str()) {
                    hit = true;
                } else {
                    match &c.nickname {
                        Some(nick) => {
                            let lowered = to_lower(nick.as_str());
                            hit = text_contains(lowered.as_str(), query.as_str());
                        },
                        None => {},
                    }
                }
            }
            if hit {
                let copy = c.clone();
                let ghost before = out@;
                out.push(copy);
                proof {
                    assert(out@.map_values(|c: Contact| c@) =~= before.map_values(|c: Contact| c@).push(copy@));
                }
            }
        }
        assert(all.take(n as int) =~= all);
        out
    }

    /// Stores `edited`, the changed contact filed under `(owner, contact)`, at
    /// `now`, and hands it back.
    fn edit_contact(&mut self, owner: &String, contact: &String, edited: Contact, now: u64, profiles: &ProfileStore) -> (r: Result<Contact, String>)
        requires
            old(self).wf(),
            profiles.wf(),
            pair_lookup(old(self)@.by_owner, owner@, contact@) is Some,
            edited.owner_principal_id@ == owner@,
            edited.contact_principal_id@ == contact@,
        ensures
            final(self).wf(),
            r matches Ok(q) && q@ == edited@,
            final(self)@ == old(self)@.upserted(edited@, now, profiles@),
    {
        let out = edited.clone();
        let _ = self.upsert_contact(edited, now, profiles);
        Ok(out)
    }

    /// Sets the status of the contact filed under `(owner_principal_id, contact_principal_id)`, stamped at `now`.
    pub fn update_contact_status(
        &mut self,
        owner_principal_id: String,
        contact_principal_id: String,
        new_status: ContactStatus,
        now: u64,
        profiles: &ProfileStore,
    ) -> (r: Result<Contact, String>)
        requires
            old(self).wf(),
            profiles.wf(),
        ensures
            final(self).wf(),
            match old(self)@.by_pair(owner_principal_id@, contact_principal_id@) {
                None => r matches Err(e) && e@ == "Contact not found"@ && final(self)@ == old(self)@,
                Some(c) => {
                    let q = ContactRecord { status: new_status, updated_at: now, ..c };
                    &&& r matches Ok(u) && u@ == q
                    &&& final(self)@ == old(self)@.upserted(q, now, profiles@)
                },
            },
    {
        match self.get_contact_by_principal_ids(owner_principal_id.clone(), contact_principal_id.clone()) {
            Some(contact) => {
                proof {
                    self@.lemma_pair_of(owner_principal_id@, contact_principal_id@);
                }
                let mut contact = contact;
                contact.status = new_status;
                contact.updated_at = now;
                self.edit_contact(&owner_principal_id, &contact_principal_id, contact, now, profiles)
            },
            None => Err("Contact not found".to_string()),
        }
    }

    /// Sets the nickname of the contact filed under `(owner_principal_id, contact_principal_id)`, stamped at `now`.
    pub fn update_contact_nickname(
        &mut self,
        owner_principal_id: String,
        contact_principal_id: String,
        nickname: String,
        now: u64,
        profiles: &ProfileStore,
    ) -> (r: Result<Contact, String>)
        requires
            old(self).wf(),
            profiles.wf(),
        ensures
            final(self).wf(),
            match old(self)@.by_pair(owner_principal_id@, contact_principal_id@) {
                None => r matches Err(e) && e@ == "Contact not found"@ && final(self)@ == old(self)@,
                Some(c) => {
                    let q = ContactRecord { nickname: Some(nickname), updated_at: now, ..c };
                    &&& r matches Ok(u) && u@ == q
                    &&& final(self)@ == old(self)@.upserted(q, now, profiles@)
                },
            },
    {
        match self.get_contact_by_principal_ids(owner_principal_id.clone(), contact_principal_id.clone()) {
            Some(contact) => {
                proof {
                    self@.lemma_pair_of(owner_principal_id@, contact_principal_id@);
                }
                let mut contact = contact;
                contact.nickname = Some(nickname);
                contact.updated_at = now;
                self.edit_contact(&owner_principal_id, &contact_principal_id, contact, now, profiles)
            },
            None => Err("Contact not found".to_string()),
        }
    }

    /// Replaces the devices of the contact filed under `(owner_principal_id, contact_principal_id)`, stamped at `now`; an empty list is filled from the contact's profile when stored.
    pub fn update_contact_devices(
        &mut self,
        owner_principal_id: String,
        contact_principal_id: String,
        devices: Vec<String>,
        now: u64,
        profiles: &ProfileStore,
    ) -> (r: Result<Contact, String>)
        requires
            old(self).wf(),
            profiles.wf(),
        ensures
            final(self).wf(),
            match old(self)@.by_pair(owner_principal_id@, contact_principal_id@) {
                None => r matches Err(e) && e@ == "Contact not found"@ && final(self)@ == old(self)@,
                Some(c) => {
                    let q = ContactRecord { devices: devices@, updated_at: now, ..c };
                    &&& r matches Ok(u) && u@ == q
                    &&& final(self)@ == old(self)@.upserted(q, now, profiles@)
                },
            },
    {
        match self.get_contact_by_principal_ids(owner_principal_id.clone(), contact_principal_id.clone()) {
            Some(contact) => {
                proof {
                    self@.lemma_pair_of(owner_principal_id@, contact_principal_id@);
                }
                let mut contact = contact;
                contact.devices = devices;
                contact.updated_at = now;
                self.edit_contact(&owner_principal_id, &contact_principal_id, contact, now, profiles)
            },
            None => Err("Contact not found".to_string()),
        }
    }

    /// Sets whether the contact filed under `(owner_principal_id, contact_principal_id)` is online, stamped at `now`.
    pub fn update_contact_online_status(
        &mut self,
        owner_principal_id: String,
        contact_principal_id: String,
        is_online: bool,
        now: u64,
        profiles: &ProfileStore,
    ) -> (r: Result<Contact, String>)
        requires
            old(self).wf(),
            profiles.wf(),
        ensures
            final(self).wf(),
            match old(self)@.by_pair(owner_principal_id@, contact_principal_id@) {
                None => r matches Err(e) && e@ == "Contact not found"@ && final(self)@ == old(self)@,
                Some(c) => {
                    let q = ContactRecord { is_online, updated_at: now, ..c };
                    &&& r matches Ok(u) && u@ == q
                    &&& final(self)@ == old(self)@.upserted(q, now, profiles@)
                },
            },
    {
        match self.get_contact_by_principal_ids(owner_principal_id.clone(), contact_principal_id.clone()) {
            Some(contact) => {
                proof {
                    self@.lemma_pair_of(owner_principal_id@, contact_principal_id@);
                }
                let mut contact = contact;
                contact.is_online = is_online;
                contact.updated_at = now;
                self.edit_contact(&owner_principal_id, &contact_principal_id, contact, now, profiles)
            },
            None => Err("Contact not found".to_string()),
        }
    }

    /// Takes the contact filed under `(owner_principal_id, contact_principal_id)`
    /// out of both indices; the record stays in the list.
    pub fn delete_contact(&mut self, owner_principal_id: String, contact_principal_id: String) -> (r: Result<bool, String>)
        requires
            old(self).wf(),
        ensures
            final(self).wf(),
            match pair_lookup(old(self)@.by_owner, owner_principal_id@, contact_principal_id@) {
                None => r == Ok::<bool, String>(false) && final(self)@ == old(self)@,
                Some(i) => r == Ok::<bool, String>(true) && final(self)@ == old(self)@.unindexed(
                    owner_principal_id@,
                    contact_principal_id@,
                    i,
                ),
            },
    {
        let ghost old_view = self@;
        match self.pair_position(&owner_principal_id, &contact_principal_id) {
            None => Ok(false),
            Some(i) => {
                let n = self.contacts.len();
                assert(i < n);
                let k = i as usize;
                assert(k == i);
                let name_key = ContactNameKey {
                    owner_principal_id: owner_principal_id.clone(),
                    name: self.contacts[k].name.clone(),
                };
                self.owner_index.remove(
                    &ContactOwnerKey { owner_principal_id, contact_principal_id },
                );
                self.name_index.remove(&name_key);
                proof {
                    let target = old_view.unindexed(owner_principal_id@, contact_principal_id@, i);
                    assert(self@.contacts =~= target.contacts);
                    assert(self@.by_owner =~= target.by_owner);
                    assert(self@.by_name =~= target.by_name);
                }
                Ok(true)
            },
        }
    }

    /// The number of contacts of `owner_principal_id`.
    pub fn get_total_contacts_by_owner(&self, owner_principal_id: String) -> (n: u64)
        requires
            self.wf(),
        ensures
            n == owned_contacts(self@.contacts, owner_principal_id@).len(),
    {
        let all = self.get_contacts_by_owner(owner_principal_id);
        assert(all@.len() == all@.map_values(|c: Contact| c@).len());
        all.len() as u64
    }
}

#[derive(PartialEq, Eq, Structural, Clone, Copy, Debug)]
pub enum MessageMode {
    Text,
    Voice,
    Image,
    Emoji,
}

#[derive(Debug)]
pub struct ChatMessage {
    pub send_by: String,
    pub content: String,
    pub mode: MessageMode,
    pub timestamp: u64,
}

impl Clone for ChatMessage {
    fn clone(&self) -> (r: Self)
        ensures
            r == *self,
    {
        ChatMessage {
            send_by: self.send_by.clone(),
            content: self.content.clone(),
            mode: self.mode,
            timestamp: self.timestamp,
        }
    }
}

/// The key of a chat history.
#[derive(Debug)]
pub struct SocialPairKey {
    pub pair_key: String,
}

impl MapKey for SocialPairKey {
    open spec fn key_fields(&self) -> KeyFields {
        text_key(self.pair_key@)
    }

    fn rank_key(&self, other: &Self) -> (r: Rank) {
        rank_single(self.pair_key.as_str(), other.pair_key.as_str())
    }
}

#[derive(Debug)]
pub struct ChatHistory {
    pub social_pair_key: String,
    pub messages: Vec<ChatMessage>,
    pub created_at: u64,
    pub updated_at: u64,
}

/// A chat history as a value.
#[verifier::ext_equal]
pub struct HistoryRecord {
    pub social_pair_key: Seq<char>,
    pub messages: Seq<ChatMessage>,
    pub created_at: u64,
    pub updated_at: u64,
}

impl View for ChatHistory {
    type V = HistoryRecord;

    open spec fn view(&self) -> HistoryRecord {
        HistoryRecord {
            social_pair_key: self.social_pair_key@,
            messages: self.messages@,
            created_at: self.created_at,
            updated_at: self.updated_at,
        }
    }
}

/// Copies the messages `s[lo..hi]`.
fn copy_messages(s: &Vec<ChatMessage>, lo: usize, hi: usize) -> (r: Vec<ChatMessage>)
    requires
        lo <= hi <= s@.len(),
    ensures
        r@ == s@.subrange(lo as int, hi as int),
{
    let mut out: Vec<ChatMessage> = Vec::new();
    let mut i = lo;
    while i < hi
        invariant
            lo <= i <= hi <= s@.len(),
            out@ == s@.subrange(lo as int, i as int),
        decreases hi - i,
    {
        out.push(s[i].clone());
        proof {
            assert(out@ =~= s@.subrange(lo as int, i + 1));
        }
        i = i + 1;
    }
    out
}

impl Clone for ChatHistory {
    fn clone(&self) -> (r: Self)
        ensures
            r@ == self@,
    {
        ChatHistory {
            social_pair_key: self.social_pair_key.clone(),
            messages: copy_messages(&self.messages, 0, self.messages.len()),
            created_at: self.created_at,
            updated_at: self.updated_at,
        }
    }
}

#[derive(Debug)]
pub struct NotificationItem {
    pub social_pair_key: String,
    pub to_who: String,
    pub message_id: u64,
    pub timestamp: u64,
}

impl Clone for NotificationItem {
    fn clone(&self) -> (r: Self)
        ensures
            r == *self,
    {
        NotificationItem {
            social_pair_key: self.social_pair_key.clone(),
            to_who: self.to_who.clone(),
            message_id: self.message_id,
            timestamp: self.timestamp,
        }
    }
}

/// The key of a queued notification.
#[derive(Debug)]
pub struct NotificationKey {
    pub notification_id: String,
}

impl MapKey for NotificationKey {
    open spec fn key_fields(&self) -> KeyFields {
        text_key(self.notification_id@)
    }

    fn rank_key(&self, other: &Self) -> (r: Rank) {
        rank_single(self.notification_id.as_str(), other.notification_id.as_str())
    }
}

/// The hash that a fresh `DefaultHasher` gives a string.
pub uninterp spec fn default_hash(s: Seq<char>) -> u64;

/// Hashes `s` with a fresh `std::collections::hash_map::DefaultHasher` (made by
/// `new`, so with fixed keys); the result is `default_hash(s)`.
#[verifier::external_body]
fn hash_text(s: &String) -> (r: u64)
    ensures
        r == default_hash(s@),
{
    let mut hasher = std::collections::hash_map::DefaultHasher::new();
    s.hash(&mut hasher);
    hasher.finish()
}

/// The two principals in ascending byte order, joined by a colon.
pub open spec fn ordered_join(a: Seq<char>, b: Seq<char>) -> Seq<char> {
    if bytes_lt(utf8_of(b), utf8_of(a)) {
        b + ":"@ + a
    } else {
        a + ":"@ + b
    }
}

/// The chat key of two principals.
pub open spec fn social_pair_text(a: Seq<char>, b: Seq<char>) -> Seq<char> {
    "social_pair_"@ + decimal(default_hash(ordered_join(a, b)) as nat)
}

/// The chat key of two principals does not depend on their order.
pub proof fn lemma_social_pair_symmetric(a: Seq<char>, b: Seq<char>)
    ensures
        social_pair_text(a, b) == social_pair_text(b, a),
{
    lemma_bytes_lt_total(utf8_of(a), utf8_of(b));
    lemma_bytes_lt_asymmetric(utf8_of(a), utf8_of(b));
    lemma_utf8_injective(a, b);
    assert(ordered_join(a, b) == ordered_join(b, a));
}

/// A message sent is the newest message of its chat, read from either side,
/// and the chat grows by exactly that message.
pub proof fn lemma_send_then_read(
    histories: Map<KeyFields, HistoryRecord>,
    sender: Seq<char>,
    receiver: Seq<char>,
    msg: ChatMessage,
    now: u64,
)
    ensures
        ({
            let pair = social_pair_text(sender, receiver);
            let h = history_after(history_of(histories, pair), pair, msg, now);
            let after = histories.insert(text_key(pair), h);
            &&& history_of(after, social_pair_text(receiver, sender)) == Some(h)
            &&& h.messages.last() == msg
            &&& h.messages.drop_last() == match history_of(histories, pair) {
                None => Seq::<ChatMessage>::empty(),
                Some(o) => o.messages,
            }
        }),
{
    lemma_social_pair_symmetric(sender, receiver);
    let pair = social_pair_text(sender, receiver);
    match history_of(histories, pair) {
        None => {
            assert(seq![msg].drop_last() =~= Seq::<ChatMessage>::empty());
        },
        Some(o) => {
            assert(o.messages.push(msg).drop_last() =~= o.messages);
        },
    }
}

/// The chat key of two principals: the principals are put in ascending order,
/// joined by a colon and hashed, and the hash is written after `social_pair_`.
pub fn generate_social_pair_key(principal1: String, principal2: String) -> (r: String)
    ensures
        r@ == social_pair_text(principal1@, principal2@),
{
    let combined = match rank_text(principal1.as_str(), principal2.as_str()) {
        Rank::Above => concat3(principal2.as_str(), ":", principal1.as_str()),
        _ => concat3(principal1.as_str(), ":", principal2.as_str()),
    };
    proof {
        lemma_bytes_lt_total(utf8_of(principal1@), utf8_of(principal2@));
        lemma_bytes_lt_asymmetric(utf8_of(principal1@), utf8_of(principal2@));
    }
    let hash = hash_text(&combined);
    let digits = decimal_text(hash);
    concat_text("social_pair_", digits.as_str())
}

/// The key under which a notification for `receiver` about the chat `pair` is
/// queued at `now`.
pub open spec fn notice_id(pair: Seq<char>, receiver: Seq<char>, now: u64) -> Seq<char> {
    pair + ":"@ + receiver + ":"@ + decimal(now as nat)
}

/// Whether the notification `n` is addressed to `receiver`.
pub open spec fn notice_to(n: NotificationItem, receiver: Seq<char>) -> bool {
    n.to_who@ == receiver
}

/// Whether `i` is the first position of the queue `q` holding a notification for
/// `receiver`.
pub open spec fn first_notice_for(q: Seq<(KeyFields, NotificationItem)>, receiver: Seq<char>, i: int) -> bool {
    &&& 0 <= i < q.len()
    &&& notice_to(q[i].1, receiver)
    &&& forall|j: int| 0 <= j < i ==> !notice_to(#[trigger] q[j].1, receiver)
}

/// The notifications of the queue `q` for `receiver`, in queue order.
pub open spec fn notices_for(q: Seq<(KeyFields, NotificationItem)>, receiver: Seq<char>) -> Seq<NotificationItem> {
    q.map_values(|e: (KeyFields, NotificationItem)| e.1).filter(|n: NotificationItem| notice_to(n, receiver))
}

/// Whether a queued entry is a notification for `receiver` about the chat `pair`.
pub open spec fn notice_of_pair(e: (KeyFields, NotificationItem), pair: Seq<char>, receiver: Seq<char>) -> bool {
    e.1.social_pair_key@ == pair && e.1.to_who@ == receiver
}

/// A chat history after `msg` was added at `now`; a new history for `pair` when
/// there was none.
pub open spec fn history_after(h: Option<HistoryRecord>, pair: Seq<char>, msg: ChatMessage, now: u64) -> HistoryRecord {
    match h {
        Some(h) => HistoryRecord { messages: h.messages.push(msg), updated_at: now, ..h },
        None => HistoryRecord { social_pair_key: pair, messages: seq![msg], created_at: now, updated_at: now },
    }
}

/// The history of the chat with key `pair`.
pub open spec fn history_of(m: Map<KeyFields, HistoryRecord>, pair: Seq<char>) -> Option<HistoryRecord> {
    if m.contains_key(text_key(pair)) {
        Some(m[text_key(pair)])
    } else {
        None
    }
}

/// What the chat store holds: the histories by chat key, and the notification
/// queue in the order of its keys.
#[verifier::ext_equal]
pub struct ChatView {
    pub histories: Map<KeyFields, HistoryRecord>,
    pub notices: Seq<(KeyFields, NotificationItem)>,
}

/// The chat histories and the notification queue.
pub struct ChatStore {
    histories: SortedMap<SocialPairKey, ChatHistory>,
    notifications: SortedMap<NotificationKey, NotificationItem>,
}

impl View for ChatStore {
    type V = ChatView;

    closed spec fn view(&self) -> ChatView {
        ChatView {
            histories: self.histories.as_map().map_values(|h: ChatHistory| h@),
            notices: self.notifications.pairs(),
        }
    }
}

impl ChatStore {
    pub closed spec fn wf(&self) -> bool {
        &&& self.histories.wf()
        &&& self.notifications.wf()
    }

    /// The queue is ordered by strictly ascending keys.
    pub proof fn lemma_queue_sorted(&self)
        requires
            self.wf(),
        ensures
            strictly_sorted(keys_of(self@.notices)),
    {
        self.notifications.lemma_pairs();
    }

    pub fn new() -> (s: Self)
        ensures
            s.wf(),
            s@.histories == Map::<KeyFields, HistoryRecord>::empty(),
            s@.notices == Seq::<(KeyFields, NotificationItem)>::empty(),
    {
        let s = ChatStore { histories: SortedMap::new(), notifications: SortedMap::new() };
        assert(s@.histories =~= Map::<KeyFields, HistoryRecord>::empty());
        assert(s@.notices =~= Seq::<(KeyFields, NotificationItem)>::empty());
        s
    }

    /// Queues a notification for `receiver_principal` about message `message_id` of
    /// the chat `social_pair_key`, under a key made of the chat, the receiver and
    /// `now`; a notification under the same key is replaced.
    pub fn push_notification(&mut self, social_pair_key: String, receiver_principal: String, message_id: u64, now: u64) -> (r: Result<(), String>)
        requires
            old(self).wf(),
        ensures
            final(self).wf(),
            r is Ok,
            final(self)@.histories == old(self)@.histories,
            map_of(final(self)@.notices) == map_of(old(self)@.notices).insert(
                text_key(notice_id(social_pair_key@, receiver_principal@, now)),
                NotificationItem { social_pair_key, to_who: receiver_principal, message_id, timestamp: now },
            ),
    {
        let digits = decimal_text(now);
        let head = concat3(social_pair_key.as_str(), ":", receiver_principal.as_str());
        let id = concat3(head.as_str(), ":", digits.as_str());
        let item = NotificationItem { social_pair_key, to_who: receiver_principal, message_id, timestamp: now };
        proof {
            self.notifications.lemma_pairs();
        }
        self.notifications.insert(NotificationKey { notification_id: id }, item);
        proof {
            self.notifications.lemma_pairs();
        }
        Ok(())
    }

    /// Adds a message of `sender_principal` to `receiver_principal`, stamped at
    /// `now`, to the history of their chat (opened when there is none), queues a
    /// notification for the receiver, and returns the message's position.
    pub fn add_chat_message(
        &mut self,
        sender_principal: String,
        receiver_principal: String,
        content: String,
        mode: MessageMode,
        now: u64,
    ) -> (r: Result<u64, String>)
        requires
            old(self).wf(),
        ensures
            final(self).wf(),
            ({
                let pair = social_pair_text(sender_principal@, receiver_principal@);
                let msg = ChatMessage { send_by: sender_principal, content, mode, timestamp: now };
                let h = history_after(history_of(old(self)@.histories, pair), pair, msg, now);
                &&& final(self)@.histories == old(self)@.histories.insert(text_key(pair), h)
                &&& r == Ok::<u64, String>((h.messages.len() - 1) as u64)
                &&& exists|n: NotificationItem| {
                    &&& n == NotificationItem { social_pair_key: n.social_pair_key, to_who: receiver_principal, message_id: (h.messages.len() - 1) as u64, timestamp: now }
                    &&& n.social_pair_key@ == pair
                    &&& map_of(final(self)@.notices) == map_of(old(self)@.notices).insert(
                        text_key(notice_id(pair, receiver_principal@, now)),
                        n,
                    )
                }
            }),
    {
        let pair_key = generate_social_pair_key(sender_principal.clone(), receiver_principal.clone());
        let ghost pair = pair_key@;
        let ghost old_view = self@;
        let key = SocialPairKey { pair_key: pair_key.clone() };
        let found = self.histories.remove(&key);
        let mut history = match found {
            Some(h) => h,
            None => ChatHistory { social_pair_key: pair_key.clone(), messages: Vec::new(), created_at: now, updated_at: now },
        };
        let msg = ChatMessage { send_by: sender_principal, content, mode, timestamp: now };
        let ghost m = msg;
        history.messages.push(msg);
        history.updated_at = now;
        let index = (history.messages.len() - 1) as u64;
        let ghost h = history@;
        self.histories.insert(key, history);
        proof {
            assert(h == history_after(history_of(old_view.histories, pair), pair, m, now));
            assert(self@.histories =~= old_view.histories.insert(text_key(pair), h));
        }
        let ghost mid = self@;
        let ghost pk = pair_key;
        let receiver = receiver_principal.clone();
        let _ = self.push_notification(pair_key, receiver, index, now);
        proof {
            assert(self@.histories == mid.histories);
            let item = NotificationItem { social_pair_key: pk, to_who: receiver_principal, message_id: index, timestamp: now };
            assert(map_of(self@.notices) == map_of(old_view.notices).insert(
                text_key(notice_id(pair, receiver_principal@, now)),
                item,
            ));
            assert(item.social_pair_key@ == pair);
        }
        Ok(index)
    }

    /// The last five messages of the chat of `principal1` and `principal2`, or all
    /// of them when there are fewer.
    pub fn get_recent_chat_messages(&self, principal1: String, principal2: String) -> (r: Vec<ChatMessage>)
        requires
            self.wf(),
        ensures
            match history_of(self@.histories, social_pair_text(principal1@, principal2@)) {
                None => r@ == Seq::<ChatMessage>::empty(),
                Some(h) => r@ == h.messages.subrange(
                    if h.messages.len() > 5 { h.messages.len() - 5 } else { 0 },
                    h.messages.len() as int,
                ),
            },
    {
        let pair_key = generate_social_pair_key(principal1, principal2);
        match self.histories.get(&SocialPairKey { pair_key }) {
            Some(h) => {
                let n = h.messages.len();
                let start = if n > 5 { n - 5 } else { 0 };
                copy_messages(&h.messages, start, n)
            },
            None => Vec::new(),
        }
    }

    /// At most `limit` messages of the chat of `principal1` and `principal2` from
    /// position `offset` on.
    pub fn get_chat_messages_paginated(&self, principal1: String, principal2: String, offset: u64, limit: usize) -> (r: Vec<ChatMessage>)
        requires
            self.wf(),
            offset + limit <= usize::MAX,
        ensures
            match history_of(self@.histories, social_pair_text(principal1@, principal2@)) {
                None => r@ == Seq::<ChatMessage>::empty(),
                Some(h) => r@ == skip_take(h.messages, offset as int, limit as int),
            },
    {
        let pair_key = generate_social_pair_key(principal1, principal2);
        match self.histories.get(&SocialPairKey { pair_key }) {
            Some(h) => {
                let n = h.messages.len();
                if offset >= n as u64 {
                    return Vec::new();
                }
                let start = offset as usize;
                let end = if start + limit < n { start + limit } else { n };
                copy_messages(&h.messages, start, end)
            },
            None => Vec::new(),
        }
    }

    /// The number of messages of the chat of `principal1` and `principal2`.
    pub fn get_chat_message_count(&self, principal1: String, principal2: String) -> (n: u64)
        requires
            self.wf(),
        ensures
            n == match history_of(self@.histories, social_pair_text(principal1@, principal2@)) {
                None => 0,
                Some(h) => h.messages.len(),
            },
    {
        let pair_key = generate_social_pair_key(principal1, principal2);
        match self.histories.get(&SocialPairKey { pair_key }) {
            Some(h) => h.messages.len() as u64,
            None => 0,
        }
    }

    /// Takes the first queued notification for `receiver_principal` off the queue.
    pub fn pop_notification(&mut self, receiver_principal: String) -> (r: Option<NotificationItem>)
        requires
            old(self).wf(),
        ensures
            final(self).wf(),
            final(self)@.histories == old(self)@.histories,
            r is None <==> forall|j: int| 0 <= j < old(self)@.notices.len() ==> !notice_to(
                #[trigger] old(self)@.notices[j].1,
                receiver_principal@,
            ),
            r is None ==> final(self)@ == old(self)@,
            r matches Some(n) ==> exists|i: int|
                {
                    &&& first_notice_for(old(self)@.notices, receiver_principal@, i)
                    &&& n == old(self)@.notices[i].1
                    &&& final(self)@.notices == old(self)@.notices.remove(i)
                },
    {
        let n = self.notifications.len();
        let ghost q = self@.notices;
        let mut i: usize = 0;
        while i < n
            invariant
                self.notifications.wf(),
                self.histories.wf(),
                self@.histories == old(self)@.histories,
                q == self@.notices,
                q == old(self)@.notices,
                n == q.len(),
                i <= n,
                forall|j: int| 0 <= j < i ==> !notice_to(#[trigger] q[j].1, receiver_principal@),
            decreases n - i,
        {
            let (_, item) = self.notifications.entry_at(i);
            if item.to_who == receiver_principal {
                let found = item.clone();
                let _ = self.notifications.remove_at(i);
                proof {
                    assert(first_notice_for(q, receiver_principal@, i as int));
                }
                return Some(found);
            }
            i = i + 1;
        }
        None
    }

    /// The queued notifications for `receiver_principal`, in queue order.
    pub fn get_notifications_for_receiver(&self, receiver_principal: String) -> (r: Vec<NotificationItem>)
        requires
            self.wf(),
        ensures
            r@ == notices_for(self@.notices, receiver_principal@),
    {
        let n = self.notifications.len();
        let ghost q = self@.notices;
        let ghost vals = q.map_values(|e: (KeyFields, NotificationItem)| e.1);
        let mut out: Vec<NotificationItem> = Vec::new();
        for i in 0..n
            invariant
                q == self@.notices,
                n == q.len(),
                vals == q.map_values(|e: (KeyFields, NotificationItem)| e.1),
                out@ == vals.take(i as int).filter(|m: NotificationItem| notice_to(m, receiver_principal@)),
        {
            proof {
                reveal_with_fuel(Seq::<_>::filter, 1);
                assert(vals.take(i + 1).drop_last() =~= vals.take(i as int));
            }
            let (_, item) = self.notifications.entry_at(i);
            if item.to_who == receiver_principal {
                out.push(item.clone());
            }
        }
        assert(vals.take(n as int) =~= vals);
        out
    }

    /// Removes the queued notifications for `receiver_principal` about the chat
    /// `social_pair_key`, and returns how many there were.
    pub fn clear_notifications_for_pair(&mut self, social_pair_key: String, receiver_principal: String) -> (r: Result<u64, String>)
        requires
            old(self).wf(),
        ensures
            final(self).wf(),
            final(self)@.histories == old(self)@.histories,
            final(self)@.notices == old(self)@.notices.filter(
                |e: (KeyFields, NotificationItem)| !notice_of_pair(e, social_pair_key@, receiver_principal@),
            ),
            r == Ok::<u64, String>((old(self)@.notices.len() - final(self)@.notices.len()) as u64),
    {
        let ghost q = self@.notices;
        let ghost keep = |e: (KeyFields, NotificationItem)| !notice_of_pair(e, social_pair_key@, receiver_principal@);
        let n = self.notifications.len();
        let mut i: usize = 0;
        let mut j: usize = 0;
        let mut removed: u64 = 0;
        while j < n
            invariant
                self.notifications.wf(),
                self.histories.wf(),
                self@.histories == old(self)@.histories,
                keep == (|e: (KeyFields, NotificationItem)| !notice_of_pair(e, social_pair_key@, receiver_principal@)),
                n == q.len(),
                q == old(self)@.notices,
                j <= n,
                i <= j,
                removed == j - i,
                self@.notices == q.take(j as int).filter(keep) + q.skip(j as int),
                q.take(j as int).filter(keep).len() == i,
            decreases n - j,
        {
            proof {
                reveal_with_fuel(Seq::<_>::filter, 1);
                assert(q.take(j + 1).drop_last() =~= q.take(j as int));
                assert(self@.notices.len() == self.notifications.key_seq().len());
                assert(self@.notices[i as int] == q[j as int]);
            }
            let entry = self.notifications.entry_at(i);
            let item = entry.1;
            assert(*item == q[j as int].1);
            if item.social_pair_key == social_pair_key && item.to_who == receiver_principal {
                let ghost before = self@.notices;
                let _ = self.notifications.remove_at(i);
                proof {
                    let p = q.take(j as int).filter(keep);
                    assert(notice_of_pair(q[j as int], social_pair_key@, receiver_principal@));
                    assert(!keep(q[j as int]));
                    assert(q.take(j + 1).last() == q[j as int]);
                    assert(q.take(j + 1).filter(keep) == p);
                    assert(before == p + q.skip(j as int));
                    assert(self@.notices == before.remove(i as int));
                    assert(self@.notices =~= p + q.skip(j + 1));
                }
                removed = removed + 1;
            } else {
                proof {
                    let p = q.take(j as int).filter(keep);
                    assert(!notice_of_pair(q[j as int], social_pair_key@, receiver_principal@));
                    assert(keep(q[j as int]));
                    assert(q.take(j + 1).last() == q[j as int]);
                    assert(q.take(j + 1).filter(keep) == p.push(q[j as int]));
                    assert(self@.notices =~= p.push(q[j as int]) + q.skip(j + 1));
                }
                i = i + 1;
            }
            j = j + 1;
        }
        proof {
            assert(q.take(n as int) =~= q);
            assert(q.skip(n as int) =~= Seq::<(KeyFields, NotificationItem)>::empty());
            assert(self@.notices =~= q.filter(keep));
        }
        Ok(removed)
    }
}

} // verus!
