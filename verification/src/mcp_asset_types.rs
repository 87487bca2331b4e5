//! The MCP registry, keyed by name and walked in name order, and the ledger of
//! credits staked on MCPs.
use vstd::prelude::*;
use crate::text::{texts_view, position_of_text, utf8_of, is_prefix, is_blank_text, is_blank, text_starts_with, text_equal,
    concat3, clone_opt_text};
use crate::sorted_map::{SortedMap, KeyFields, MapKey};

verus! {

#[derive(Debug)]
pub struct McpItem {
    pub id: u64,
    pub name: String,
    pub description: String,
    pub author: String,
    pub owner: String,
    pub git_repo: String,
    pub exec_file: Option<String>,
    pub homepage: Option<String>,
    pub remote_endpoint: Option<String>,
    pub mcp_type: String,
    pub community_body: Option<String>,
    pub resources: bool,
    pub prompts: bool,
    pub tools: bool,
    pub sampling: bool,
}

impl Clone for McpItem {
    fn clone(&self) -> (r: Self)
        ensures
            r == *self,
    {
        McpItem {
            id: self.id,
            name: self.name.clone(),
            description: self.description.clone(),
            author: self.author.clone(),
            owner: self.owner.clone(),
            git_repo: self.git_repo.clone(),
            exec_file: clone_opt_text(&self.exec_file),
            homepage: clone_opt_text(&self.homepage),
            remote_endpoint: clone_opt_text(&self.remote_endpoint),
            mcp_type: self.mcp_type.clone(),
            community_body: clone_opt_text(&self.community_body),
            resources: self.resources,
            prompts: self.prompts,
            tools: self.tools,
            sampling: self.sampling,
        }
    }
}

impl Default for McpItem {
    fn default() -> (r: Self)
        ensures
            r.id == 1,
            r.name@.len() == 0,
            r.description@.len() == 0,
            r.author@.len() == 0,
            r.owner@.len() == 0,
            r.git_repo@.len() == 0,
            r.exec_file is None,
            r.homepage is None,
            r.remote_endpoint is None,
            r.mcp_type@.len() == 0,
            r.community_body is None,
            !r.resources && !r.prompts && !r.tools && !r.sampling,
    {
        McpItem {
            id: 1,
            name: String::new(),
            description: String::new(),
            author: String::new(),
            owner: String::new(),
            git_repo: String::new(),
            exec_file: None,
            homepage: None,
            remote_endpoint: None,
            mcp_type: String::new(),
            community_body: None,
            resources: false,
            prompts: false,
            tools: false,
            sampling: false,
        }
    }
}

#[derive(PartialEq, Eq, Structural, Clone, Copy, Debug)]
pub enum StackStatus {
    Stacked,
    Unstacked,
}

#[derive(Debug)]
pub struct McpStackRecord {
    pub principal_id: String,
    pub mcp_name: String,
    pub stack_time: u64,
    pub stack_amount: u64,
    pub stack_status: StackStatus,
}

impl Clone for McpStackRecord {
    fn clone(&self) -> (r: Self)
        ensures
            r == *self,
    {
        McpStackRecord {
            principal_id: self.principal_id.clone(),
            mcp_name: self.mcp_name.clone(),
            stack_time: self.stack_time,
            stack_amount: self.stack_amount,
            stack_status: self.stack_status,
        }
    }
}

#[derive(Debug)]
pub struct StackPositionRecord {
    pub id: u64,
    pub mcp_name: String,
    pub stack_amount: u64,
}

/// The key under which the owner index files an MCP.
#[derive(Debug)]
pub struct UserMcpKey {
    pub owner: String,
    pub mcp_name: String,
}

/// Whether each item of `vs` sits under the key of its own name in `ks`.
pub open spec fn named(ks: Seq<KeyFields>, vs: Seq<McpItem>) -> bool {
    &&& ks.len() == vs.len()
    &&& forall|i: int| 0 <= i < ks.len() ==> #[trigger] ks[i] == name_key(vs[i].name@)
}

/// Filing an item under the key of its name, in place or at a new position,
/// keeps every item under the key of its name.
proof fn lemma_named_insert(ks0: Seq<KeyFields>, vs0: Seq<McpItem>, ks1: Seq<KeyFields>, vs1: Seq<McpItem>, item: McpItem)
    requires
        named(ks0, vs0),
        (exists|i: int| 0 <= i < ks0.len() && ks0[i] == name_key(item.name@) && ks1 == ks0 && vs1 == vs0.update(i, item))
            || (exists|p: int| 0 <= p <= ks0.len() && ks1 == ks0.insert(p, name_key(item.name@)) && vs1 == vs0.insert(p, item)),
    ensures
        named(ks1, vs1),
{
    if exists|i: int| 0 <= i < ks0.len() && ks0[i] == name_key(item.name@) && ks1 == ks0 && vs1 == vs0.update(i, item) {
        let i = choose|i: int| 0 <= i < ks0.len() && ks0[i] == name_key(item.name@) && ks1 == ks0 && vs1 == vs0.update(i, item);
        assert forall|j: int| 0 <= j < ks1.len() implies #[trigger] ks1[j] == name_key(vs1[j].name@) by {
            if j != i {
                assert(ks0[j] == name_key(vs0[j].name@));
            }
        }
    } else {
        let p = choose|p: int| 0 <= p <= ks0.len() && ks1 == ks0.insert(p, name_key(item.name@)) && vs1 == vs0.insert(p, item);
        assert forall|j: int| 0 <= j < ks1.len() implies #[trigger] ks1[j] == name_key(vs1[j].name@) by {
            if j < p {
                assert(ks0[j] == name_key(vs0[j].name@));
            } else if j > p {
                assert(ks0[j - 1] == name_key(vs0[j - 1].name@));
            }
        }
    }
}

/// Removing an entry keeps every item under the key of its name.
proof fn lemma_named_remove(ks0: Seq<KeyFields>, vs0: Seq<McpItem>, ks1: Seq<KeyFields>, vs1: Seq<McpItem>)
    requires
        named(ks0, vs0),
        (ks1 == ks0 && vs1 == vs0) || (exists|i: int| 0 <= i < ks0.len() && ks1 == ks0.remove(i) && vs1 == vs0.remove(i)),
    ensures
        named(ks1, vs1),
{
    if exists|i: int| 0 <= i < ks0.len() && ks1 == ks0.remove(i) && vs1 == vs0.remove(i) {
        let i = choose|i: int| 0 <= i < ks0.len() && ks1 == ks0.remove(i) && vs1 == vs0.remove(i);
        assert forall|j: int| 0 <= j < ks1.len() implies #[trigger] ks1[j] == name_key(vs1[j].name@) by {
            if j < i {
                assert(ks0[j] == name_key(vs0[j].name@));
            } else {
                assert(ks0[j + 1] == name_key(vs0[j + 1].name@));
            }
        }
    }
}

/// The key of a name in the registry.
pub open spec fn name_key(name: Seq<char>) -> KeyFields {
    seq![utf8_of(name)]
}

/// Whether `s` begins with `http://` or `https://`.
pub open spec fn is_http_url(s: Seq<char>) -> bool {
    is_prefix(utf8_of("http://"@), utf8_of(s)) || is_prefix(utf8_of("https://"@), utf8_of(s))
}

/// Whether an optional URL is acceptable: absent, blank, or an HTTP(S) URL.
pub open spec fn optional_url_ok(u: Option<String>) -> bool {
    match u {
        Some(h) => is_blank_text(h@) || is_http_url(h@),
        None => true,
    }
}

/// Whether an optional text is acceptable: absent or not blank.
pub open spec fn optional_text_ok(u: Option<String>) -> bool {
    match u {
        Some(h) => !is_blank_text(h@),
        None => true,
    }
}

/// The message of the first check that `m` fails when it is registered, if any.
pub open spec fn mcp_check(m: McpItem) -> Option<Seq<char>> {
    if is_blank_text(m.name@) {
        Some("MCP name cannot be empty"@)
    } else if is_blank_text(m.description@) {
        Some("MCP description cannot be empty"@)
    } else if is_blank_text(m.author@) {
        Some("MCP author cannot be empty"@)
    } else if is_blank_text(m.git_repo@) {
        Some("MCP git repository cannot be empty"@)
    } else if !(m.mcp_type@ == "stdio"@ || m.mcp_type@ == "http"@ || m.mcp_type@ == "sse"@) {
        Some("Invalid MCP type. Must be one of: stdio, http, sse"@)
    } else if !is_http_url(m.git_repo@) {
        Some("Git repository must be a valid HTTP(S) URL"@)
    } else if !optional_url_ok(m.homepage) {
        Some("Homepage must be a valid HTTP(S) URL"@)
    } else if !optional_url_ok(m.remote_endpoint) {
        Some("Remote endpoint must be a valid HTTP(S) URL"@)
    } else if !optional_text_ok(m.exec_file) {
        Some("Exec file path cannot be empty if provided"@)
    } else if !optional_text_ok(m.community_body) {
        Some("Community body cannot be empty if provided"@)
    } else {
        None
    }
}

fn http_url(s: &String) -> (r: bool)
    ensures
        r == is_http_url(s@),
{
    text_starts_with(s.as_str(), "http://") || text_starts_with(s.as_str(), "https://")
}

fn url_ok(u: &Option<String>) -> (r: bool)
    ensures
        r == optional_url_ok(*u),
{
    match u {
        Some(h) => is_blank(h.as_str()) || http_url(h),
        None => true,
    }
}

fn text_ok(u: &Option<String>) -> (r: bool)
    ensures
        r == optional_text_ok(*u),
{
    match u {
        Some(h) => !is_blank(h.as_str()),
        None => true,
    }
}

/// Runs the registration checks on `m`, in order, and reports the first failure.
pub fn check_mcp_item(m: &McpItem) -> (r: Option<String>)
    ensures
        r is None <==> mcp_check(*m) is None,
        r matches Some(e) ==> mcp_check(*m) == Some(e@),
{
    if is_blank(m.name.as_str()) {
        return Some("MCP name cannot be empty".to_owned());
    }
    if is_blank(m.description.as_str()) {
        return Some("MCP description cannot be empty".to_owned());
    }
    if is_blank(m.author.as_str()) {
        return Some("MCP author cannot be empty".to_owned());
    }
    if is_blank(m.git_repo.as_str()) {
        return Some("MCP git repository cannot be empty".to_owned());
    }
    let t = m.mcp_type.as_str();
    if !(text_equal(t, "stdio") || text_equal(t, "http") || text_equal(t, "sse")) {
        return Some("Invalid MCP type. Must be one of: stdio, http, sse".to_owned());
    }
    if !http_url(&m.git_repo) {
        return Some("Git repository must be a valid HTTP(S) URL".to_owned());
    }
    if !url_ok(&m.homepage) {
        return Some("Homepage must be a valid HTTP(S) URL".to_owned());
    }
    if !url_ok(&m.remote_endpoint) {
        return Some("Remote endpoint must be a valid HTTP(S) URL".to_owned());
    }
    if !text_ok(&m.exec_file) {
        return Some("Exec file path cannot be empty if provided".to_owned());
    }
    if !text_ok(&m.community_body) {
        return Some("Community body cannot be empty if provided".to_owned());
    }
    None
}

/// `m` as registered: owned by `owner` and numbered `id`.
pub open spec fn registered(m: McpItem, owner: String, id: u64) -> McpItem {
    McpItem { owner, id, ..m }
}

/// Whether `m` belongs to `owner`.
pub open spec fn mcp_owned_by(m: McpItem, owner: Seq<char>) -> bool {
    m.owner@ == owner
}

/// The MCPs of `items` that `owner` owns, in order.
pub open spec fn owned_mcps(items: Seq<McpItem>, owner: Seq<char>) -> Seq<McpItem> {
    items.filter(|m: McpItem| mcp_owned_by(m, owner))
}

/// `items[lo..hi]`, each renumbered by its position in the whole walk plus one.
pub open spec fn renumbered(items: Seq<McpItem>, lo: int, hi: int) -> Seq<McpItem> {
    Seq::new((hi - lo) as nat, |k: int| McpItem { id: (lo + k + 1) as u64, ..items[lo + k] })
}

/// Whether record `a` is listed before record `b`: staked before unstaked, then
/// later before earlier.
pub open spec fn listed_before(a: McpStackRecord, b: McpStackRecord) -> bool {
    if a.stack_status != b.stack_status {
        a.stack_status == StackStatus::Stacked
    } else {
        a.stack_time > b.stack_time
    }
}

/// The first position in `t` from `i` on whose record comes after `x`.
pub open spec fn slot_for(x: McpStackRecord, t: Seq<McpStackRecord>, i: int) -> int
    decreases t.len() - i,
{
    if i >= t.len() || i < 0 {
        t.len() as int
    } else if listed_before(x, t[i]) {
        i
    } else {
        slot_for(x, t, i + 1)
    }
}

/// The stable sort of `s` by `listed_before`: each record in turn goes in front of
/// the first record that it is listed before, after all it ties with.
pub open spec fn listing_order(s: Seq<McpStackRecord>) -> Seq<McpStackRecord>
    decreases s.len(),
{
    if s.len() == 0 {
        s
    } else {
        let t = listing_order(s.drop_last());
        t.insert(slot_for(s.last(), t, 0), s.last())
    }
}

proof fn lemma_listed_before_order(a: McpStackRecord, b: McpStackRecord, c: McpStackRecord)
    ensures
        listed_before(a, b) && listed_before(b, c) ==> listed_before(a, c),
        listed_before(a, b) ==> !listed_before(b, a),
{
}

proof fn lemma_slot(x: McpStackRecord, t: Seq<McpStackRecord>, i: int)
    requires
        0 <= i <= t.len(),
    ensures
        i <= slot_for(x, t, i) <= t.len(),
        forall|j: int| i <= j < slot_for(x, t, i) ==> !listed_before(x, #[trigger] t[j]),
        slot_for(x, t, i) < t.len() ==> listed_before(x, t[slot_for(x, t, i)]),
    decreases t.len() - i,
{
    if i < t.len() && !listed_before(x, t[i]) {
        lemma_slot(x, t, i + 1);
    }
}

/// The listing order is a sorted rearrangement of the records: it holds the same
/// records, and no record is listed after one that it is listed before.
pub proof fn lemma_listing_order_sorted(s: Seq<McpStackRecord>)
    ensures
        listing_order(s).len() == s.len(),
        listing_order(s).to_multiset() == s.to_multiset(),
        forall|i: int, j: int| 0 <= i < j < s.len() ==> !listed_before(
            #[trigger] listing_order(s)[j],
            #[trigger] listing_order(s)[i],
        ),
    decreases s.len(),
{
    broadcast use vstd::seq_lib::group_to_multiset_ensures;
    if s.len() > 0 {
        let x = s.last();
        let t = listing_order(s.drop_last());
        lemma_listing_order_sorted(s.drop_last());
        lemma_slot(x, t, 0);
        let p = slot_for(x, t, 0);
        let u = t.insert(p, x);
        assert(u.remove(p) =~= t);
        assert(u[p] == x);
        assert(s =~= s.drop_last().push(x));
        assert(u.to_multiset() =~= t.to_multiset().insert(x)) by {
            assert(u.remove(p).to_multiset() =~= u.to_multiset().remove(x));
        }
        assert forall|i: int, j: int| 0 <= i < j < u.len() implies !listed_before(#[trigger] u[j], #[trigger] u[i]) by {
            if i < p && j == p {
            } else if i < p && j > p {
                assert(u[j] == t[j - 1]);
            } else if i == p && j > p {
                assert(u[j] == t[j - 1]);
                if p < t.len() {
                    lemma_listed_before_order(t[j - 1], x, t[p]);
                    lemma_listed_before_order(x, t[p], t[j - 1]);
                    if j - 1 > p {
                        assert(!listed_before(t[j - 1], t[p]));
                    }
                }
            } else if i > p {
                assert(u[i] == t[i - 1]);
                assert(u[j] == t[j - 1]);
            } else {
                assert(u[i] == t[i]);
                assert(u[j] == t[j]);
            }
        }
    }
}

/// Whether record `r` is about MCP `name`.
pub open spec fn about_mcp(r: McpStackRecord, name: Seq<char>) -> bool {
    r.mcp_name@ == name
}

/// The sum of the amounts of the staked records in `s`.
pub open spec fn staked_total(s: Seq<McpStackRecord>) -> int
    decreases s.len(),
{
    if s.len() == 0 {
        0
    } else {
        staked_total(s.drop_last()) + if s.last().stack_status == StackStatus::Stacked {
            s.last().stack_amount as int
        } else {
            0
        }
    }
}

/// The sum of the amounts of the staked records in `s` about `name`.
pub open spec fn staked_total_for(s: Seq<McpStackRecord>, name: Seq<char>) -> int
    decreases s.len(),
{
    if s.len() == 0 {
        0
    } else {
        staked_total_for(s.drop_last(), name) + if s.last().stack_status == StackStatus::Stacked
            && s.last().mcp_name@ == name {
            s.last().stack_amount as int
        } else {
            0
        }
    }
}

/// `s[lo..min(lo + n, len)]`, or nothing when `lo` is past the end.
pub open spec fn page<T>(s: Seq<T>, lo: int, n: int) -> Seq<T> {
    if lo >= s.len() {
        Seq::empty()
    } else {
        s.subrange(lo, if lo + n < s.len() { lo + n } else { s.len() as int })
    }
}

/// The MCP registry and the staking ledger.
pub struct McpStore {
    items: SortedMap<String, McpItem>,
    stack_records: Vec<McpStackRecord>,
}

impl McpStore {
    /// The registry, by name key.
    pub closed spec fn items_map(&self) -> Map<KeyFields, McpItem> {
        self.items.as_map()
    }

    /// The MCPs in name order.
    pub closed spec fn items_seq(&self) -> Seq<McpItem> {
        self.items.val_seq()
    }

    /// The name keys, in order.
    pub closed spec fn keys_seq(&self) -> Seq<KeyFields> {
        self.items.key_seq()
    }

    /// The staking records, oldest first.
    pub closed spec fn records(&self) -> Seq<McpStackRecord> {
        self.stack_records@
    }

    pub closed spec fn wf(&self) -> bool {
        &&& self.items.wf()
        &&& named(self.items.key_seq(), self.items.val_seq())
    }

    /// The MCPs are filed under their own names, in strictly ascending name order.
    pub proof fn lemma_named(&self)
        requires
            self.wf(),
        ensures
            named(self.keys_seq(), self.items_seq()),
            crate::sorted_map::strictly_sorted(self.keys_seq()),
    {
    }

    pub proof fn lemma_wf(&self)
        requires
            self.wf(),
        ensures
            self.items_seq().len() == self.keys_seq().len(),
            forall|i: int| 0 <= i < self.keys_seq().len() ==> {
                &&& self.items_map().contains_key(#[trigger] self.keys_seq()[i])
                &&& self.items_map()[self.keys_seq()[i]] == self.items_seq()[i]
            },
    {
        assert forall|i: int| 0 <= i < self.keys_seq().len() implies {
            &&& self.items_map().contains_key(#[trigger] self.keys_seq()[i])
            &&& self.items_map()[self.keys_seq()[i]] == self.items_seq()[i]
        } by {
            self.items.lemma_at(i);
        }
    }

    pub fn new() -> (s: Self)
        ensures
            s.wf(),
            s.items_map() == Map::<KeyFields, McpItem>::empty(),
            s.items_seq() == Seq::<McpItem>::empty(),
            s.records() == Seq::<McpStackRecord>::empty(),
    {
        McpStore { items: SortedMap::new(), stack_records: Vec::new() }
    }

    /// Registers an MCP under its name, owned by `caller_id` and numbered one past
    /// the count of MCPs; refused when a check fails or the name is taken.
    pub fn add_mcp_item(&mut self, mcp: McpItem, caller_id: String) -> (r: Result<String, String>)
        requires
            old(self).wf(),
            old(self).items_seq().len() < u64::MAX,
        ensures
            final(self).wf(),
            final(self).records() == old(self).records(),
            mcp_check(mcp) matches Some(msg) ==> r matches Err(e) && e@ == msg && final(self).items_map()
                == old(self).items_map(),
            mcp_check(mcp) is None && old(self).items_map().contains_key(name_key(mcp.name@)) ==> (r matches Err(e)
                && e@ == "MCP with name '"@ + mcp.name@ + "' already exists"@) && final(self).items_map() == old(self).items_map(),
            mcp_check(mcp) is None && !old(self).items_map().contains_key(name_key(mcp.name@)) ==> {
                &&& r matches Ok(n) && n@ == mcp.name@
                &&& final(self).items_map() == old(self).items_map().insert(
                    name_key(mcp.name@),
                    registered(mcp, caller_id, (old(self).items_seq().len() + 1) as u64),
                )
            },
    {
        match check_mcp_item(&mcp) {
            Some(e) => {
                return Err(e);
            },
            None => {},
        }
        if self.items.contains_key(&mcp.name) {
            return Err(concat3("MCP with name '", mcp.name.as_str(), "' already exists"));
        }
        let id = self.items.len() as u64 + 1;
        let name = mcp.name.clone();
        let key = mcp.name.clone();
        let mut item = mcp;
        item.owner = caller_id;
        item.id = id;
        let ghost ks0 = self.items.key_seq();
        let ghost vs0 = self.items.val_seq();
        let ghost iv = item;
        self.items.insert(key, item);
        proof {
            lemma_named_insert(ks0, vs0, self.items.key_seq(), self.items.val_seq(), iv);
        }
        Ok(name)
    }

    /// The MCP registered under `name`.
    pub fn get_mcp_item(&self, name: String) -> (r: Option<McpItem>)
        requires
            self.wf(),
        ensures
            r == (if self.items_map().contains_key(name_key(name@)) {
                Some(self.items_map()[name_key(name@)])
            } else {
                None::<McpItem>
            }),
    {
        match self.items.get(&name) {
            Some(m) => Some(m.clone()),
            None => None,
        }
    }

    /// All MCPs, in name order.
    pub fn get_all_mcp_items(&self) -> (r: Vec<McpItem>)
        requires
            self.wf(),
        ensures
            r@ == self.items_seq(),
    {
        let mut out: Vec<McpItem> = Vec::new();
        let n = self.items.len();
        for i in 0..n
            invariant
                self.items.wf(),
                n == self.items.val_seq().len(),
                out@ == self.items.val_seq().subrange(0, i as int),
        {
            let (_, v) = self.items.entry_at(i);
            out.push(v.clone());
            proof {
                assert(out@ =~= self.items.val_seq().subrange(0, i + 1));
            }
        }
        assert(out@ =~= self.items.val_seq());
        out
    }

    /// The MCPs that `owner` owns, in name order.
    pub fn get_user_mcp_items(&self, owner: String) -> (r: Vec<McpItem>)
        requires
            self.wf(),
        ensures
            r@ == owned_mcps(self.items_seq(), owner@),
    {
        let mut out: Vec<McpItem> = Vec::new();
        let n = self.items.len();
        for i in 0..n
            invariant
                self.items.wf(),
                n == self.items.val_seq().len(),
                out@ == owned_mcps(self.items.val_seq().take(i as int), owner@),
        {
            proof {
                reveal_with_fuel(Seq::<_>::filter, 1);
                assert(self.items.val_seq().take(i + 1).drop_last() =~= self.items.val_seq().take(i as int));
            }
            let (_, v) = self.items.entry_at(i);
            if v.owner == owner {
                out.push(v.clone());
            }
        }
        assert(self.items.val_seq().take(n as int) =~= self.items.val_seq());
        out
    }

    /// Replaces the MCP registered under `name`, which keeps its name and number;
    /// refused when there is none or the owners differ.
    pub fn update_mcp_item(&mut self, name: String, mcp: McpItem) -> (r: Result<(), String>)
        requires
            old(self).wf(),
        ensures
            final(self).wf(),
            final(self).records() == old(self).records(),
            !old(self).items_map().contains_key(name_key(name@)) ==> (r matches Err(e) && e@ == "MCP with name '"@ + name@
                + "' not found"@) && final(self).items_map() == old(self).items_map(),
            old(self).items_map().contains_key(name_key(name@)) && old(self).items_map()[name_key(
                name@,
            )].owner@ != mcp.owner@ ==> (r matches Err(e) && e@ == "Only the owner can update this item"@)
                && final(self).items_map() == old(self).items_map(),
            old(self).items_map().contains_key(name_key(name@)) && old(self).items_map()[name_key(
                name@,
            )].owner@ == mcp.owner@ ==> r is Ok && final(self).items_map() == old(self).items_map().insert(
                name_key(name@),
                McpItem { name, id: old(self).items_map()[name_key(name@)].id, ..mcp },
            ),
    {
        let existing_id = match self.items.get(&name) {
            None => {
                return Err(concat3("MCP with name '", name.as_str(), "' not found"));
            },
            Some(existing) => {
                if existing.owner != mcp.owner {
                    return Err("Only the owner can update this item".to_string());
                }
                existing.id
            },
        };
        let key = name.clone();
        let mut item = mcp;
        item.name = name;
        item.id = existing_id;
        let ghost ks0 = self.items.key_seq();
        let ghost vs0 = self.items.val_seq();
        let ghost iv = item;
        self.items.insert(key, item);
        proof {
            lemma_named_insert(ks0, vs0, self.items.key_seq(), self.items.val_seq(), iv);
        }
        Ok(())
    }

    /// At most `limit` MCPs from position `offset` of the name order, each numbered
    /// by its position plus one.
    pub fn get_mcp_items_paginated(&self, offset: u64, limit: u64) -> (r: Vec<McpItem>)
        requires
            self.wf(),
            offset + limit <= u64::MAX,
        ensures
            offset >= self.items_seq().len() || limit == 0 ==> r@ == Seq::<McpItem>::empty(),
            offset < self.items_seq().len() && limit > 0 ==> r@ == renumbered(
                self.items_seq(),
                offset as int,
                if offset + limit < self.items_seq().len() {
                    offset + limit
                } else {
                    self.items_seq().len() as int
                },
            ),
    {
        let n = self.items.len();
        let total = n as u64;
        if offset >= total {
            return Vec::new();
        }
        if limit == 0 {
            return Vec::new();
        }
        let end = if offset + limit < total { offset + limit } else { total };
        let mut out: Vec<McpItem> = Vec::new();
        let mut i = offset;
        while i < end
            invariant
                offset <= i <= end,
                end <= total,
                total == n,
                self.items.wf(),
                n == self.items.val_seq().len(),
                n <= usize::MAX,
                out@ == renumbered(self.items.val_seq(), offset as int, i as int),
            decreases end - i,
        {
            let k = i as usize;
            assert(k == i);
            let (_, v) = self.items.entry_at(k);
            let mut item = v.clone();
            item.id = i + 1;
            out.push(item);
            proof {
                assert(out@ =~= renumbered(self.items.val_seq(), offset as int, i + 1));
            }
            i = i + 1;
        }
        out
    }

    /// At most `limit` of the MCPs that `owner` owns, from position `offset` of that list.
    pub fn get_user_mcp_items_paginated(&self, owner: String, offset: u64, limit: usize) -> (r: Vec<McpItem>)
        requires
            self.wf(),
            offset + limit <= usize::MAX,
        ensures
            r@ == page(owned_mcps(self.items_seq(), owner@), offset as int, limit as int),
    {
        let user_items = self.get_user_mcp_items(owner);
        let n = user_items.len();
        if offset >= n as u64 {
            return Vec::new();
        }
        let start = offset as usize;
        let end = if start + limit < n { start + limit } else { n };
        let mut out: Vec<McpItem> = Vec::new();
        for i in start..end
            invariant
                end <= user_items@.len(),
                out@ == user_items@.subrange(start as int, i as int),
        {
            out.push(user_items[i].clone());
            proof {
                assert(out@ =~= user_items@.subrange(start as int, i + 1));
            }
        }
        out
    }

    /// Removes the MCP registered under `name`; refused when there is none.
    pub fn delete_mcp_item(&mut self, name: String) -> (r: Result<(), String>)
        requires
            old(self).wf(),
        ensures
            final(self).wf(),
            final(self).records() == old(self).records(),
            r is Ok == old(self).items_map().contains_key(name_key(name@)),
            r matches Err(e) ==> e@ == "MCP with name '"@ + name@ + "' not found"@,
            final(self).items_map() == old(self).items_map().remove(name_key(name@)),
    {
        if !self.items.contains_key(&name) {
            assert(self.items.as_map().remove(name_key(name@)) =~= self.items.as_map());
            return Err(concat3("MCP with name '", name.as_str(), "' not found"));
        }
        let ghost ks0 = self.items.key_seq();
        let ghost vs0 = self.items.val_seq();
        let _ = self.items.remove(&name);
        proof {
            lemma_named_remove(ks0, vs0, self.items.key_seq(), self.items.val_seq());
        }
        Ok(())
    }

    /// Records that `principal_id` staked `stack_amount` credits on `mcp_name` at `now`.
    pub fn stack_mcp(&mut self, mcp_name: String, principal_id: String, stack_amount: u64, now: u64) -> (r: Result<(), String>)
        requires
            old(self).wf(),
        ensures
            final(self).wf(),
            r is Ok,
            final(self).items_map() == old(self).items_map(),
            final(self).items_seq() == old(self).items_seq(),
            final(self).records() == old(self).records().push(
                McpStackRecord { principal_id, mcp_name, stack_time: now, stack_amount, stack_status: StackStatus::Stacked },
            ),
    {
        self.stack_records.push(
            McpStackRecord { principal_id, mcp_name, stack_time: now, stack_amount, stack_status: StackStatus::Stacked },
        );
        Ok(())
    }

    /// Records that `principal_id` took back `stack_amount` credits from `mcp_name` at `now`.
    pub fn unstack_mcp(&mut self, mcp_name: String, principal_id: String, stack_amount: u64, now: u64) -> (r: Result<(), String>)
        requires
            old(self).wf(),
        ensures
            final(self).wf(),
            r is Ok,
            final(self).items_map() == old(self).items_map(),
            final(self).items_seq() == old(self).items_seq(),
            final(self).records() == old(self).records().push(
                McpStackRecord {
                    principal_id,
                    mcp_name,
                    stack_time: now,
                    stack_amount,
                    stack_status: StackStatus::Unstacked,
                },
            ),
    {
        self.stack_records.push(
            McpStackRecord {
                principal_id,
                mcp_name,
                stack_time: now,
                stack_amount,
                stack_status: StackStatus::Unstacked,
            },
        );
        Ok(())
    }

    /// At most `limit` of the records about `mcp_name`, from position `offset` of their
    /// listing order (staked first, then latest first, ties in the order recorded).
    pub fn get_mcp_stack_records_paginated(&self, mcp_name: String, offset: u64, limit: u64) -> (r: Vec<McpStackRecord>)
        requires
            offset + limit <= usize::MAX,
        ensures
            r@ == page(
                listing_order(self.records().filter(|x: McpStackRecord| about_mcp(x, mcp_name@))),
                offset as int,
                limit as int,
            ),
    {
        let ghost pred = |x: McpStackRecord| about_mcp(x, mcp_name@);
        let mut listed: Vec<McpStackRecord> = Vec::new();
        let n = self.stack_records.len();
        for i in 0..n
            invariant
                n == self.stack_records@.len(),
                pred == (|x: McpStackRecord| about_mcp(x, mcp_name@)),
                listed@ == listing_order(self.stack_records@.take(i as int).filter(pred)),
        {
            proof {
                reveal_with_fuel(Seq::<_>::filter, 1);
                assert(self.stack_records@.take(i + 1).drop_last() =~= self.stack_records@.take(i as int));
            }
            let rec = &self.stack_records[i];
            if rec.mcp_name == mcp_name {
                let ghost before = self.stack_records@.take(i as int).filter(pred);
                let ghost after = self.stack_records@.take(i + 1).filter(pred);
                assert(after == before.push(*rec));
                assert(after.drop_last() =~= before);
                let p = Self::slot(&listed, rec);
                listed.insert(p, rec.clone());
                assert(listed@ == listing_order(after));
            }
        }
        assert(self.stack_records@.take(n as int) =~= self.stack_records@);
        let start = offset as usize;
        let m = listed.len();
        if start >= m {
            return Vec::new();
        }
        let end = if start + (limit as usize) < m { start + (limit as usize) } else { m };
        let mut out: Vec<McpStackRecord> = Vec::new();
        for j in start..end
            invariant
                end <= listed@.len(),
                out@ == listed@.subrange(start as int, j as int),
        {
            out.push(listed[j].clone());
            proof {
                assert(out@ =~= listed@.subrange(start as int, j + 1));
            }
        }
        out
    }

    fn slot(t: &Vec<McpStackRecord>, x: &McpStackRecord) -> (p: usize)
        ensures
            p == slot_for(*x, t@, 0),
            p <= t@.len(),
    {
        let mut i: usize = 0;
        while i < t.len()
            invariant
                i <= t@.len(),
                slot_for(*x, t@, 0) == slot_for(*x, t@, i as int),
            decreases t@.len() - i,
        {
            let before = if x.stack_status != t[i].stack_status {
                x.stack_status == StackStatus::Stacked
            } else {
                x.stack_time > t[i].stack_time
            };
            if before {
                return i;
            }
            i = i + 1;
        }
        i
    }

    /// Every stake record, in the order recorded.
    pub fn get_all_stack_records(&self) -> (r: Vec<McpStackRecord>)
        ensures
            r@ == self.records(),
    {
        let mut out: Vec<McpStackRecord> = Vec::new();
        let n = self.stack_records.len();
        for i in 0..n
            invariant
                n == self.stack_records@.len(),
                out@ == self.stack_records@.take(i as int),
        {
            out.push(self.stack_records[i].clone());
            proof {
                assert(out@ =~= self.stack_records@.take(i + 1));
            }
        }
        assert(self.stack_records@.take(n as int) =~= self.stack_records@);
        out
    }

    /// The credits staked over all records (unstaking records do not count).
    pub fn get_total_stacked_credits(&self) -> (r: u64)
        requires
            staked_total(self.records()) <= u64::MAX,
        ensures
            r == staked_total(self.records()),
    {
        let mut total: u64 = 0;
        let n = self.stack_records.len();
        for i in 0..n
            invariant
                n == self.stack_records@.len(),
                staked_total(self.stack_records@) <= u64::MAX,
                total == staked_total(self.stack_records@.take(i as int)),
        {
            proof {
                assert(self.stack_records@.take(i + 1).drop_last() =~= self.stack_records@.take(i as int));
                lemma_staked_total_prefix(self.stack_records@, i + 1);
            }
            if self.stack_records[i].stack_status == StackStatus::Stacked {
                total = total + self.stack_records[i].stack_amount;
            }
        }
        assert(self.stack_records@.take(n as int) =~= self.stack_records@);
        total
    }

    /// The staked credits of each MCP that has staked records: one entry per MCP, in
    /// the order the MCPs first appear among the staked records, numbered from one.
    pub fn get_stacked_record_group_by_stack_amount(&self) -> (r: Vec<StackPositionRecord>)
        requires
            forall|name: Seq<char>| #[trigger] staked_total_for(self.records(), name) <= u64::MAX,
        ensures
            forall|k: int| 0 <= k < r@.len() ==> (#[trigger] r@[k]).id == k + 1,
            forall|k: int| 0 <= k < r@.len() ==> (#[trigger] r@[k]).stack_amount == staked_total_for(
                self.records(),
                r@[k].mcp_name@,
            ),
            forall|a: int, b: int| 0 <= a < b < r@.len() ==> (#[trigger] r@[a]).mcp_name@ != (#[trigger] r@[b]).mcp_name@,
            forall|k: int| 0 <= k < r@.len() ==> has_staked(self.records(), self.records().len() as int, (#[trigger] r@[k]).mcp_name@),
            forall|j: int| 0 <= j < self.records().len() && (#[trigger] self.records()[j]).stack_status
                == StackStatus::Stacked ==> exists|k: int| 0 <= k < r@.len() && #[trigger] r@[k].mcp_name@
                == self.records()[j].mcp_name@,
    {
        let names = self.staked_names();
        let mut out: Vec<StackPositionRecord> = Vec::new();
        let m = names.len();
        for k in 0..m
            invariant
                m == names@.len(),
                forall|name: Seq<char>| #[trigger] staked_total_for(self.stack_records@, name) <= u64::MAX,
                out@.len() == k,
                forall|q: int| 0 <= q < k ==> (#[trigger] out@[q]).id == q + 1 && out@[q].mcp_name@ == names@[q]@
                    && out@[q].stack_amount == staked_total_for(self.stack_records@, names@[q]@),
        {
            let amount = self.staked_sum_for(&names[k]);
            out.push(StackPositionRecord { id: (k as u64) + 1, mcp_name: names[k].clone(), stack_amount: amount });
        }
        proof {
            assert forall|j: int| 0 <= j < self.records().len() && (#[trigger] self.records()[j]).stack_status
                == StackStatus::Stacked implies exists|q: int| 0 <= q < out@.len() && #[trigger] out@[q].mcp_name@
                == self.records()[j].mcp_name@ by {
                let q = texts_view(names@).index_of(self.records()[j].mcp_name@);
                assert(out@[q].mcp_name@ == self.records()[j].mcp_name@);
            }
            assert forall|q: int| 0 <= q < out@.len() implies has_staked(self.records(), self.records().len() as int, (#[trigger] out@[q]).mcp_name@) by {
                assert(names@[q]@ == out@[q].mcp_name@);
            }
        }
        out
    }

    /// The names of the MCPs that have staked records, each once, in order of first appearance.
    fn staked_names(&self) -> (names: Vec<String>)
        ensures
            forall|a: int, b: int| 0 <= a < b < names@.len() ==> (#[trigger] names@[a])@ != (#[trigger] names@[b])@,
            forall|q: int| 0 <= q < names@.len() ==> has_staked(self.records(), self.records().len() as int, (#[trigger] names@[q])@),
            forall|j: int| 0 <= j < self.records().len() && (#[trigger] self.records()[j]).stack_status
                == StackStatus::Stacked ==> texts_view(names@).contains(self.records()[j].mcp_name@),
    {
        let mut names: Vec<String> = Vec::new();
        let n = self.stack_records.len();
        for i in 0..n
            invariant
                n == self.stack_records@.len(),
                forall|a: int, b: int| 0 <= a < b < names@.len() ==> (#[trigger] names@[a])@ != (#[trigger] names@[b])@,
                forall|q: int| 0 <= q < names@.len() ==> has_staked(self.stack_records@, i as int, (#[trigger] names@[q])@),
                forall|j: int| 0 <= j < i && (#[trigger] self.stack_records@[j]).stack_status
                    == StackStatus::Stacked ==> texts_view(names@).contains(self.stack_records@[j].mcp_name@),
        {
            let rec = &self.stack_records[i];
            proof {
                assert forall|q: int| 0 <= q < names@.len() implies has_staked(self.stack_records@, i + 1, (#[trigger] names@[q])@) by {
                    lemma_has_staked_grows(self.stack_records@, i as int, names@[q]@);
                }
            }
            if rec.stack_status == StackStatus::Stacked {
                match position_of_text(&names, &rec.mcp_name) {
                    Some(k) => {
                        assert(texts_view(names@)[k as int] == rec.mcp_name@);
                    },
                    None => {
                        let ghost before = names@;
                        names.push(rec.mcp_name.clone());
                        proof {
                            assert(has_staked(self.stack_records@, i + 1, rec.mcp_name@));
                            assert forall|q: int| 0 <= q < names@.len() implies has_staked(self.stack_records@, i + 1, (#[trigger] names@[q])@) by {
                                if q < m_len(before) {
                                    assert(names@[q] == before[q]);
                                }
                            }
                            assert forall|j: int| 0 <= j < i + 1 && (#[trigger] self.stack_records@[j]).stack_status
                                == StackStatus::Stacked implies texts_view(names@).contains(self.stack_records@[j].mcp_name@) by {
                                if j == i {
                                    assert(texts_view(names@)[before.len() as int] == rec.mcp_name@);
                                } else {
                                    let q = texts_view(before).index_of(self.stack_records@[j].mcp_name@);
                                    assert(texts_view(names@)[q] == self.stack_records@[j].mcp_name@);
                                }
                            }
                        }
                    },
                }
            }
        }
        names
    }

    /// The credits staked on `name`.
    fn staked_sum_for(&self, name: &String) -> (total: u64)
        requires
            staked_total_for(self.records(), name@) <= u64::MAX,
        ensures
            total == staked_total_for(self.records(), name@),
    {
        let mut total: u64 = 0;
        let n = self.stack_records.len();
        for i in 0..n
            invariant
                n == self.stack_records@.len(),
                staked_total_for(self.stack_records@, name@) <= u64::MAX,
                total == staked_total_for(self.stack_records@.take(i as int), name@),
        {
            proof {
                assert(self.stack_records@.take(i + 1).drop_last() =~= self.stack_records@.take(i as int));
                lemma_staked_total_for_prefix(self.stack_records@, name@, i + 1);
            }
            let rec = &self.stack_records[i];
            if rec.stack_status == StackStatus::Stacked && rec.mcp_name == *name {
                total = total + rec.stack_amount;
            }
        }
        assert(self.stack_records@.take(n as int) =~= self.stack_records@);
        total
    }
}

/// Whether some staked record among the first `upto` of `recs` is about `name`.
pub open spec fn has_staked(recs: Seq<McpStackRecord>, upto: int, name: Seq<char>) -> bool {
    exists|j: int| 0 <= j < upto && #[trigger] recs[j].mcp_name@ == name && recs[j].stack_status == StackStatus::Stacked
}

spec fn m_len(s: Seq<String>) -> int {
    s.len() as int
}

proof fn lemma_has_staked_grows(recs: Seq<McpStackRecord>, i: int, name: Seq<char>)
    ensures
        has_staked(recs, i, name) ==> has_staked(recs, i + 1, name),
{
    if has_staked(recs, i, name) {
        let j = choose|j: int| 0 <= j < i && #[trigger] recs[j].mcp_name@ == name && recs[j].stack_status == StackStatus::Stacked;
        assert(0 <= j < i + 1 && recs[j].mcp_name@ == name);
    }
}

pub proof fn lemma_staked_total_prefix(s: Seq<McpStackRecord>, i: int)
    requires
        0 <= i <= s.len(),
    ensures
        staked_total(s.take(i)) <= staked_total(s),
    decreases s.len() - i,
{
    if i < s.len() {
        lemma_staked_total_prefix(s, i + 1);
        assert(s.take(i + 1).drop_last() =~= s.take(i));
    } else {
        assert(s.take(i) =~= s);
    }
}

proof fn lemma_staked_total_for_prefix(s: Seq<McpStackRecord>, name: Seq<char>, i: int)
    requires
        0 <= i <= s.len(),
    ensures
        staked_total_for(s.take(i), name) <= staked_total_for(s, name),
    decreases s.len() - i,
{
    if i < s.len() {
        lemma_staked_total_for_prefix(s, name, i + 1);
        assert(s.take(i + 1).drop_last() =~= s.take(i));
    } else {
        assert(s.take(i) =~= s);
    }
}

/// The sum of the staked amounts of the MCPs named in `names`.
pub open spec fn sum_for(s: Seq<McpStackRecord>, names: Seq<Seq<char>>) -> int
    decreases names.len(),
{
    if names.len() == 0 {
        0
    } else {
        sum_for(s, names.drop_last()) + staked_total_for(s, names.last())
    }
}

/// The number of times `name` occurs in `names`.
pub open spec fn occurrences(names: Seq<Seq<char>>, name: Seq<char>) -> int
    decreases names.len(),
{
    if names.len() == 0 {
        0
    } else {
        occurrences(names.drop_last(), name) + if names.last() == name { 1int } else { 0int }
    }
}

/// One record more adds its amount once for each time its MCP is named.
proof fn lemma_sum_for_step(s: Seq<McpStackRecord>, names: Seq<Seq<char>>)
    requires
        s.len() > 0,
    ensures
        sum_for(s, names) == sum_for(s.drop_last(), names) + if s.last().stack_status == StackStatus::Stacked {
            s.last().stack_amount * occurrences(names, s.last().mcp_name@)
        } else {
            0
        },
    decreases names.len(),
{
    if names.len() > 0 {
        lemma_sum_for_step(s, names.drop_last());
        let a = s.last().stack_amount as int;
        let o = occurrences(names.drop_last(), s.last().mcp_name@);
        assert(a * (o + 1) == a * o + a) by (nonlinear_arith);
        assert(a * (o + 0) == a * o) by (nonlinear_arith);
    }
}

/// A name that occurs in a list of distinct names occurs there once.
proof fn lemma_occurs_once(names: Seq<Seq<char>>, name: Seq<char>)
    requires
        forall|a: int, b: int| 0 <= a < b < names.len() ==> names[a] != names[b],
    ensures
        names.contains(name) ==> occurrences(names, name) == 1,
        !names.contains(name) ==> occurrences(names, name) == 0,
    decreases names.len(),
{
    if names.len() > 0 {
        let p = names.drop_last();
        assert forall|a: int, b: int| 0 <= a < b < p.len() implies p[a] != p[b] by {
            assert(p[a] == names[a] && p[b] == names[b]);
        }
        lemma_occurs_once(p, name);
        if names.last() == name {
            if p.contains(name) {
                let j = choose|j: int| 0 <= j < p.len() && p[j] == name;
                assert(names[j] == names[names.len() - 1]);
            }
        } else {
            if names.contains(name) {
                let j = choose|j: int| 0 <= j < names.len() && names[j] == name;
                assert(p[j] == name);
            }
        }
    }
}

/// Grouping the staked records by MCP, over distinct names that cover every
/// staked record, loses and doubles nothing: the groups add up to the total.
pub proof fn lemma_group_sums_total(s: Seq<McpStackRecord>, names: Seq<Seq<char>>)
    requires
        forall|a: int, b: int| 0 <= a < b < names.len() ==> names[a] != names[b],
        forall|j: int| 0 <= j < s.len() && (#[trigger] s[j]).stack_status == StackStatus::Stacked ==> names.contains(
            s[j].mcp_name@,
        ),
    ensures
        sum_for(s, names) == staked_total(s),
    decreases s.len(),
{
    if s.len() == 0 {
        assert(sum_for(s, names) == 0) by {
            lemma_sum_for_empty(s, names);
        }
    } else {
        let p = s.drop_last();
        assert forall|j: int| 0 <= j < p.len() && (#[trigger] p[j]).stack_status == StackStatus::Stacked implies names.contains(
            p[j].mcp_name@,
        ) by {
            assert(p[j] == s[j]);
        }
        lemma_group_sums_total(p, names);
        lemma_sum_for_step(s, names);
        lemma_occurs_once(names, s.last().mcp_name@);
        if s.last().stack_status == StackStatus::Stacked {
            assert(s[s.len() - 1] == s.last());
            assert(names.contains(s.last().mcp_name@));
        }
    }
}

proof fn lemma_sum_for_empty(s: Seq<McpStackRecord>, names: Seq<Seq<char>>)
    requires
        s.len() == 0,
    ensures
        sum_for(s, names) == 0,
    decreases names.len(),
{
    if names.len() > 0 {
        lemma_sum_for_empty(s, names.drop_last());
    }
}

/// The names of a list of stake groups.
pub open spec fn group_names(g: Seq<StackPositionRecord>) -> Seq<Seq<char>> {
    g.map_values(|x: StackPositionRecord| x.mcp_name@)
}

/// The sum of the amounts of a list of stake groups.
pub open spec fn group_amount_sum(g: Seq<StackPositionRecord>) -> int
    decreases g.len(),
{
    if g.len() == 0 {
        0
    } else {
        group_amount_sum(g.drop_last()) + g.last().stack_amount
    }
}

/// The stake groups that `get_stacked_record_group_by_stack_amount` gives (one
/// per MCP with staked records, each with that MCP's staked sum) add up to
/// `get_total_stacked_credits`.
pub proof fn lemma_groups_add_up(s: Seq<McpStackRecord>, g: Seq<StackPositionRecord>)
    requires
        forall|k: int| 0 <= k < g.len() ==> (#[trigger] g[k]).stack_amount == staked_total_for(s, g[k].mcp_name@),
        forall|a: int, b: int| 0 <= a < b < g.len() ==> (#[trigger] g[a]).mcp_name@ != (#[trigger] g[b]).mcp_name@,
        forall|j: int| 0 <= j < s.len() && (#[trigger] s[j]).stack_status == StackStatus::Stacked ==> exists|k: int|
            0 <= k < g.len() && #[trigger] g[k].mcp_name@ == s[j].mcp_name@,
    ensures
        group_amount_sum(g) == staked_total(s),
{
    let names = group_names(g);
    assert forall|a: int, b: int| 0 <= a < b < names.len() implies names[a] != names[b] by {
        assert(names[a] == g[a].mcp_name@ && names[b] == g[b].mcp_name@);
    }
    assert forall|j: int| 0 <= j < s.len() && (#[trigger] s[j]).stack_status == StackStatus::Stacked implies names.contains(
        s[j].mcp_name@,
    ) by {
        let k = choose|k: int| 0 <= k < g.len() && #[trigger] g[k].mcp_name@ == s[j].mcp_name@;
        assert(names[k] == s[j].mcp_name@);
    }
    lemma_group_sums_total(s, names);
    lemma_amounts_are_sums(s, g);
}

proof fn lemma_amounts_are_sums(s: Seq<McpStackRecord>, g: Seq<StackPositionRecord>)
    requires
        forall|k: int| 0 <= k < g.len() ==> (#[trigger] g[k]).stack_amount == staked_total_for(s, g[k].mcp_name@),
    ensures
        group_amount_sum(g) == sum_for(s, group_names(g)),
    decreases g.len(),
{
    if g.len() > 0 {
        let p = g.drop_last();
        assert forall|k: int| 0 <= k < p.len() implies (#[trigger] p[k]).stack_amount == staked_total_for(s, p[k].mcp_name@) by {
            assert(p[k] == g[k]);
        }
        lemma_amounts_are_sums(s, p);
        assert(group_names(g).drop_last() =~= group_names(p));
        assert(g[g.len() - 1] == g.last());
    }
}

/// Whether the names of `v` ascend strictly, so that no name occurs twice.
pub open spec fn names_ascending(v: Seq<McpItem>) -> bool {
    forall|i: int, j: int| 0 <= i < j < v.len() ==> crate::sorted_map::fields_lt(
        name_key((#[trigger] v[i]).name@),
        name_key((#[trigger] v[j]).name@),
    )
}

/// A filter of a list with strictly ascending names keeps them ascending.
proof fn lemma_filter_ascending(v: Seq<McpItem>, owner: Seq<char>)
    requires
        names_ascending(v),
    ensures
        names_ascending(owned_mcps(v, owner)),
    decreases v.len(),
{
    broadcast use vstd::seq_lib::group_filter_ensures;
    reveal_with_fuel(Seq::<_>::filter, 1);
    if v.len() > 0 {
        let p = v.drop_last();
        assert forall|i: int, j: int| 0 <= i < j < p.len() implies crate::sorted_map::fields_lt(
            name_key((#[trigger] p[i]).name@),
            name_key((#[trigger] p[j]).name@),
        ) by {
            assert(p[i] == v[i] && p[j] == v[j]);
        }
        lemma_filter_ascending(p, owner);
        let f = owned_mcps(p, owner);
        if mcp_owned_by(v.last(), owner) {
            let g = f.push(v.last());
            assert(owned_mcps(v, owner) == g);
            assert forall|i: int, j: int| 0 <= i < j < g.len() implies crate::sorted_map::fields_lt(
                name_key((#[trigger] g[i]).name@),
                name_key((#[trigger] g[j]).name@),
            ) by {
                if j == g.len() - 1 {
                    assert(g[i] == f[i]);
                    assert(f.contains(f[i]));
                    p.lemma_filter_contains_rev(|m: McpItem| mcp_owned_by(m, owner), f[i]);
                    assert(p.contains(f[i]));
                    let k = choose|k: int| 0 <= k < p.len() && p[k] == f[i];
                    assert(v[k] == p[k]);
                    assert(v[v.len() - 1] == v.last());
                } else {
                    assert(g[i] == f[i] && g[j] == f[j]);
                }
            }
        }
    }
}

impl McpStore {
    /// The MCPs that `owner` owns (what `get_user_mcp_items` gives) come in
    /// strictly ascending name order: no name occurs twice.
    pub proof fn lemma_user_items_ascending(&self, owner: Seq<char>)
        requires
            self.wf(),
        ensures
            names_ascending(owned_mcps(self.items_seq(), owner)),
    {
        let v = self.items_seq();
        let ks = self.keys_seq();
        assert forall|i: int, j: int| 0 <= i < j < v.len() implies crate::sorted_map::fields_lt(
            name_key((#[trigger] v[i]).name@),
            name_key((#[trigger] v[j]).name@),
        ) by {
            assert(ks[i] == name_key(v[i].name@));
            assert(ks[j] == name_key(v[j].name@));
        }
        lemma_filter_ascending(v, owner);
    }
}

} // verus!
