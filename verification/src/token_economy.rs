//! The token economy: accounts and their balances, new-user and MCP grants,
//! the logs of token and credit activity, grant policies, and the recharge
//! account. Every operation that the canister stamps with the clock takes the
//! time as `now`.
use vstd::prelude::*;
use crate::text::{concat_text, concat3, text_equal};
use crate::sorted_map::{SortedMap, KeyFields, MapKey, text_key, lemma_sorted_distinct, lemma_text_key_injective};
use crate::paging::{skip_take, keep_page};
use crate::token_economy_types::{AccountInfo, TokenInfo, TokenActivity, TokenActivityType, CreditActivity,
    CreditActivityType, TransferStatus, TokenGrant, TokenGrantStatus, NewMcpGrant, NewMcpGrantKey, GrantPolicy,
    GrantAction, RechargePrincipalAccount, fresh_account, grant_key};
use crate::mcp_asset_types::{McpStore, McpStackRecord, StackStatus};

verus! {

/// The smallest number of credits that can be staked.
pub const MIN_STAKE_AMOUNT: u64 = 100;

/// The credits of a new-user grant.
pub const NEW_USER_GRANT_AMOUNT: u64 = 1000;

/// The credits of a new-MCP grant.
pub const NEW_MCP_GRANT_AMOUNT: u64 = 10000;

/// `a` with new balances, stamped at `now`.
pub open spec fn rebalanced(a: AccountInfo, token: u64, credit: u64, staked: u64, now: u64) -> AccountInfo {
    AccountInfo {
        token_info: TokenInfo {
            token_balance: token,
            credit_balance: credit,
            staked_credits: staked,
            ..a.token_info
        },
        updated_at: Some(now),
        ..a
    }
}

/// `a` after `amount` credits moved from its balance to its stake at `now`.
pub open spec fn staked(a: AccountInfo, amount: u64, now: u64) -> AccountInfo {
    rebalanced(
        a,
        a.token_info.token_balance,
        (a.token_info.credit_balance - amount) as u64,
        (a.token_info.staked_credits + amount) as u64,
        now,
    )
}

/// `a` after `amount` credits moved from its stake back to its balance at `now`.
pub open spec fn unstaked(a: AccountInfo, amount: u64, now: u64) -> AccountInfo {
    rebalanced(
        a,
        a.token_info.token_balance,
        (a.token_info.credit_balance + amount) as u64,
        (a.token_info.staked_credits - amount) as u64,
        now,
    )
}

/// `a` after paying `amount` tokens at `now`.
pub open spec fn debited(a: AccountInfo, amount: u64, now: u64) -> AccountInfo {
    rebalanced(a, (a.token_info.token_balance - amount) as u64, a.token_info.credit_balance, a.token_info.staked_credits, now)
}

/// `a` after receiving `amount` tokens at `now`.
pub open spec fn credited(a: AccountInfo, amount: u64, now: u64) -> AccountInfo {
    rebalanced(a, (a.token_info.token_balance + amount) as u64, a.token_info.credit_balance, a.token_info.staked_credits, now)
}

/// The accounts after a transfer of `amount` tokens from `from` to `to` at `now`:
/// the payer is written first, then the payee as it was read before, so that a
/// transfer to oneself leaves the payee's write.
pub open spec fn transferred(accounts: Map<KeyFields, AccountInfo>, from: Seq<char>, to: Seq<char>, amount: u64, now: u64) -> Map<KeyFields, AccountInfo> {
    accounts.insert(text_key(from), debited(accounts[text_key(from)], amount, now)).insert(
        text_key(to),
        credited(accounts[text_key(to)], amount, now),
    )
}

/// Staking credits and unstaking as many gives the balances back.
pub proof fn lemma_stake_then_unstake(a: AccountInfo, amount: u64, staked_at: u64, unstaked_at: u64)
    requires
        a.token_info.credit_balance >= amount,
        a.token_info.staked_credits + amount <= u64::MAX,
    ensures
        unstaked(staked(a, amount, staked_at), amount, unstaked_at).token_info == a.token_info,
{
}

/// A transfer between two accounts keeps the sum of their token balances, and
/// leaves every other account as it was.
pub proof fn lemma_transfer_conserves(accounts: Map<KeyFields, AccountInfo>, from: Seq<char>, to: Seq<char>, amount: u64, now: u64)
    requires
        from != to,
        accounts.contains_key(text_key(from)),
        accounts.contains_key(text_key(to)),
        accounts[text_key(from)].token_info.token_balance >= amount,
        accounts[text_key(to)].token_info.token_balance + amount <= u64::MAX,
    ensures
        transferred(accounts, from, to, amount, now)[text_key(from)].token_info.token_balance + transferred(
            accounts,
            from,
            to,
            amount,
            now,
        )[text_key(to)].token_info.token_balance == accounts[text_key(from)].token_info.token_balance
            + accounts[text_key(to)].token_info.token_balance,
        forall|k: KeyFields| k != text_key(from) && k != text_key(to) ==> #[trigger] transferred(accounts, from, to, amount, now).contains_key(k)
            == accounts.contains_key(k) && transferred(accounts, from, to, amount, now)[k] == accounts[k],
{
    lemma_text_key_injective(from, to);
}

/// A new-user grant can be claimed once: after a successful claim, claiming it
/// again is refused.
pub proof fn lemma_grant_claimed_once(s0: TokenStore, s1: TokenStore, s2: TokenStore, p: Seq<char>, first: u64, second: u64, r1: Result<u64, String>, r2: Result<u64, String>)
    requires
        grant_claim_outcome(s0, s1, p, first, r1),
        r1 is Ok,
        grant_claim_outcome(s1, s2, p, second, r2),
    ensures
        r2 is Err,
        s2.grants() == s1.grants(),
        s2.accounts() == s1.accounts(),
{
}

/// A grant for an MCP can be claimed once: after a successful claim, claiming it
/// again is refused.
pub proof fn lemma_mcp_grant_claimed_once(s0: TokenStore, s1: TokenStore, s2: TokenStore, p: Seq<char>, m: Seq<char>, first: u64, second: u64, r1: Result<u64, String>, r2: Result<u64, String>)
    requires
        mcp_claim_outcome(s0, s1, p, m, first, r1),
        r1 is Ok,
        mcp_claim_outcome(s1, s2, p, m, second, r2),
    ensures
        r2 is Err,
        s2.mcp_grants() == s1.mcp_grants(),
        s2.accounts() == s1.accounts(),
{
}

/// A completed credit activity.
pub open spec fn credit_event(p: String, amount: u64, kind: CreditActivityType, now: u64, note: Seq<char>) -> (CreditActivity, Seq<char>) {
    (
        CreditActivity {
            timestamp: now,
            principal_id: p,
            amount,
            activity_type: kind,
            status: TransferStatus::Completed,
            metadata: None,
        },
        note,
    )
}

/// Whether `c` is the completed credit activity of `p` for `amount`, of kind `kind`,
/// at `now`, with note `note`.
pub open spec fn is_credit_event(c: CreditActivity, p: Seq<char>, amount: u64, kind: CreditActivityType, now: u64, note: Seq<char>) -> bool {
    &&& c.timestamp == now
    &&& c.principal_id@ == p
    &&& c.amount == amount
    &&& c.activity_type == kind
    &&& c.status == TransferStatus::Completed
    &&& c.metadata matches Some(m) && m@ == note
}

/// Whether `g` is an active grant of `p` with credits left to claim.
pub open spec fn claimable_mcp_grant(g: NewMcpGrant, p: Seq<char>) -> bool {
    g.recipient@ == p && g.status == TokenGrantStatus::Active && g.amount > g.claimed_amount
}

/// Whether `g` is an active grant of `p`.
pub open spec fn active_grant_of(g: NewMcpGrant, p: Seq<char>) -> bool {
    g.recipient@ == p && g.status == TokenGrantStatus::Active
}

/// The credits left on the active grants of `p` in `s`.
pub open spec fn unclaimed_total(s: Seq<NewMcpGrant>, p: Seq<char>) -> int
    decreases s.len(),
{
    if s.len() == 0 {
        0
    } else {
        unclaimed_total(s.drop_last(), p) + if active_grant_of(s.last(), p) {
            s.last().amount - s.last().claimed_amount
        } else {
            0
        }
    }
}

/// `g` fully claimed and completed.
pub open spec fn completed_grant(g: NewMcpGrant) -> NewMcpGrant {
    NewMcpGrant { claimed_amount: g.amount, status: TokenGrantStatus::Completed, ..g }
}

/// The sum of the amounts of a token log.
pub open spec fn token_amounts(s: Seq<TokenActivity>) -> int
    decreases s.len(),
{
    if s.len() == 0 {
        0
    } else {
        token_amounts(s.drop_last()) + s.last().amount
    }
}

/// The sum of the amounts of a credit log.
pub open spec fn credit_amounts(s: Seq<CreditActivity>) -> int
    decreases s.len(),
{
    if s.len() == 0 {
        0
    } else {
        credit_amounts(s.drop_last()) + s.last().amount
    }
}

/// Whether a token activity involves `p`, as sender or receiver.
pub open spec fn token_involves(a: TokenActivity, p: Seq<char>) -> bool {
    a.from@ == p || a.to@ == p
}

/// Whether a credit activity is about `p`.
pub open spec fn credit_of(a: CreditActivity, p: Seq<char>) -> bool {
    a.principal_id@ == p
}

/// The token economy.
/// The key of an account: its principal.
#[derive(Debug)]
pub struct AccountKey {
    pub principal_id: String,
}

impl MapKey for AccountKey {
    open spec fn key_fields(&self) -> KeyFields {
        text_key(self.principal_id@)
    }

    fn rank_key(&self, other: &Self) -> (r: crate::text::Rank) {
        crate::sorted_map::rank_single(self.principal_id.as_str(), other.principal_id.as_str())
    }
}

pub struct TokenStore {
    accounts: SortedMap<AccountKey, AccountInfo>,
    newuser_grants: SortedMap<String, TokenGrant>,
    mcp_grants: SortedMap<NewMcpGrantKey, NewMcpGrant>,
    token_activities: Vec<TokenActivity>,
    credit_activities: Vec<CreditActivity>,
    new_user_policy: Option<GrantPolicy>,
    new_mcp_policy: Option<GrantPolicy>,
    recharge_principal: Option<RechargePrincipalAccount>,
}

impl TokenStore {
    /// The accounts, by principal key.
    pub closed spec fn accounts(&self) -> Map<KeyFields, AccountInfo> {
        self.accounts.as_map()
    }

    /// The accounts in principal order.
    pub closed spec fn accounts_seq(&self) -> Seq<AccountInfo> {
        self.accounts.val_seq()
    }

    /// The new-user grants, by recipient key.
    pub closed spec fn grants(&self) -> Map<KeyFields, TokenGrant> {
        self.newuser_grants.as_map()
    }

    /// The new-user grants in recipient order.
    pub closed spec fn grants_seq(&self) -> Seq<TokenGrant> {
        self.newuser_grants.val_seq()
    }

    /// The MCP grants, by (recipient, MCP) key.
    pub closed spec fn mcp_grants(&self) -> Map<KeyFields, NewMcpGrant> {
        self.mcp_grants.as_map()
    }

    /// The MCP grants in (recipient, MCP) order.
    pub closed spec fn mcp_grants_seq(&self) -> Seq<NewMcpGrant> {
        self.mcp_grants.val_seq()
    }

    /// The token activity log, oldest first.
    pub closed spec fn token_log(&self) -> Seq<TokenActivity> {
        self.token_activities@
    }

    /// The credit activity log, oldest first.
    pub closed spec fn credit_log(&self) -> Seq<CreditActivity> {
        self.credit_activities@
    }

    /// The policy for new-user grants.
    pub closed spec fn new_user_policy(&self) -> Option<GrantPolicy> {
        self.new_user_policy
    }

    /// The policy for new-MCP grants.
    pub closed spec fn new_mcp_policy(&self) -> Option<GrantPolicy> {
        self.new_mcp_policy
    }

    /// The recharge account, if one is set.
    pub closed spec fn recharge(&self) -> Option<RechargePrincipalAccount> {
        self.recharge_principal
    }

    /// The stores are ordered, and each record sits under its own key.
    pub closed spec fn wf(&self) -> bool {
        &&& self.accounts.wf()
        &&& self.newuser_grants.wf()
        &&& self.mcp_grants.wf()
        &&& forall|k: KeyFields| #[trigger] self.accounts.as_map().contains_key(k) ==> text_key(
            self.accounts.as_map()[k].principal_id@,
        ) == k
        &&& forall|k: KeyFields| #[trigger] self.newuser_grants.as_map().contains_key(k) ==> text_key(
            self.newuser_grants.as_map()[k].recipient@,
        ) == k
        &&& forall|k: KeyFields| #[trigger] self.mcp_grants.as_map().contains_key(k) ==> grant_key(
            self.mcp_grants.as_map()[k].recipient@,
            self.mcp_grants.as_map()[k].mcp_name@,
        ) == k
    }

    /// The accounts, the new-user grants and the MCP grants are finite maps,
    /// each with one key per stored record.
    pub proof fn lemma_finite(&self)
        requires
            self.wf(),
        ensures
            self.accounts().dom().finite(),
            self.grants().dom().finite(),
            self.mcp_grants().dom().finite(),
            self.accounts().dom().len() == self.accounts_seq().len(),
            self.grants().dom().len() == self.grants_seq().len(),
            self.mcp_grants().dom().len() == self.mcp_grants_seq().len(),
    {
        self.accounts.lemma_dom_len();
        self.newuser_grants.lemma_dom_len();
        self.mcp_grants.lemma_dom_len();
    }

    /// Filing a new-user grant raises the grant count by one exactly when its
    /// recipient had no grant, and leaves it as it was otherwise.
    pub proof fn lemma_grant_count_after_create(s0: TokenStore, s1: TokenStore, grant: TokenGrant)
        requires
            s0.wf(),
            s1.wf(),
            s1.grants() == s0.grants().insert(text_key(grant.recipient@), grant),
        ensures
            s1.grants_seq().len() == s0.grants_seq().len() + if s0.grants().contains_key(text_key(grant.recipient@)) {
                0int
            } else {
                1int
            },
    {
        s0.lemma_finite();
        s1.lemma_finite();
        let k = text_key(grant.recipient@);
        assert(s1.grants().dom() =~= s0.grants().dom().insert(k));
    }

    /// What the public views guarantee.
    pub proof fn lemma_wf(&self)
        requires
            self.wf(),
        ensures
            forall|k: KeyFields| #[trigger] self.accounts().contains_key(k) ==> text_key(
                self.accounts()[k].principal_id@,
            ) == k,
            forall|k: KeyFields| #[trigger] self.grants().contains_key(k) ==> text_key(self.grants()[k].recipient@)
                == k,
            forall|k: KeyFields| #[trigger] self.mcp_grants().contains_key(k) ==> grant_key(
                self.mcp_grants()[k].recipient@,
                self.mcp_grants()[k].mcp_name@,
            ) == k,
    {
    }

    pub fn new() -> (s: Self)
        ensures
            s.wf(),
            s.accounts() == Map::<KeyFields, AccountInfo>::empty(),
            s.accounts_seq() == Seq::<AccountInfo>::empty(),
            s.grants() == Map::<KeyFields, TokenGrant>::empty(),
            s.grants_seq() == Seq::<TokenGrant>::empty(),
            s.mcp_grants() == Map::<KeyFields, NewMcpGrant>::empty(),
            s.mcp_grants_seq() == Seq::<NewMcpGrant>::empty(),
            s.token_log() == Seq::<TokenActivity>::empty(),
            s.credit_log() == Seq::<CreditActivity>::empty(),
            s.new_user_policy() is None,
            s.new_mcp_policy() is None,
            s.recharge() is None,
    {
        TokenStore {
            accounts: SortedMap::new(),
            newuser_grants: SortedMap::new(),
            mcp_grants: SortedMap::new(),
            token_activities: Vec::new(),
            credit_activities: Vec::new(),
            new_user_policy: None,
            new_mcp_policy: None,
            recharge_principal: None,
        }
    }

    // ---- accounts ----

    /// Stores `account` under its principal, replacing what was there.
    pub fn upsert_account(&mut self, account: AccountInfo) -> (r: Result<AccountInfo, String>)
        requires
            old(self).wf(),
        ensures
            final(self).wf(),
            r == Ok::<AccountInfo, String>(account),
            final(self).accounts() == old(self).accounts().insert(text_key(account.principal_id@), account),
            final(self).grants() == old(self).grants(),
            final(self).mcp_grants() == old(self).mcp_grants(),
            final(self).mcp_grants_seq() == old(self).mcp_grants_seq(),
            final(self).mcp_grant_keys() == old(self).mcp_grant_keys(),
            final(self).token_log() == old(self).token_log(),
            final(self).credit_log() == old(self).credit_log(),
            final(self).new_user_policy() == old(self).new_user_policy(),
            final(self).new_mcp_policy() == old(self).new_mcp_policy(),
            final(self).recharge() == old(self).recharge(),
    {
        let key = AccountKey { principal_id: account.principal_id.clone() };
        let copy = account.clone();
        self.accounts.insert(key, account);
        Ok(copy)
    }

    /// The account of `principal_id`.
    pub fn get_account(&self, principal_id: String) -> (r: Option<AccountInfo>)
        requires
            self.wf(),
        ensures
            r == (if self.accounts().contains_key(text_key(principal_id@)) {
                Some(self.accounts()[text_key(principal_id@)])
            } else {
                None::<AccountInfo>
            }),
    {
        match self.accounts.get(&AccountKey { principal_id: principal_id.clone() }) {
            Some(a) => Some(a.clone()),
            None => None,
        }
    }

    /// All accounts, in principal order.
    pub fn get_all_accounts(&self) -> (r: Vec<AccountInfo>)
        requires
            self.wf(),
        ensures
            r@ == self.accounts_seq(),
    {
        let mut out: Vec<AccountInfo> = Vec::new();
        let n = self.accounts.len();
        for i in 0..n
            invariant
                self.accounts.wf(),
                n == self.accounts.val_seq().len(),
                out@ == self.accounts.val_seq().subrange(0, i as int),
        {
            let (_, v) = self.accounts.entry_at(i);
            out.push(v.clone());
            proof {
                assert(out@ =~= self.accounts.val_seq().subrange(0, i + 1));
            }
        }
        assert(out@ =~= self.accounts.val_seq());
        out
    }

    /// Removes the account of `principal_id`; refused when there is none.
    pub fn delete_account(&mut self, principal_id: String) -> (r: Result<(), String>)
        requires
            old(self).wf(),
        ensures
            final(self).wf(),
            r is Ok == old(self).accounts().contains_key(text_key(principal_id@)),
            r is Err ==> fails_with(r, "Account not found"@),
            final(self).accounts() == old(self).accounts().remove(text_key(principal_id@)),
            final(self).grants() == old(self).grants(),
            final(self).mcp_grants() == old(self).mcp_grants(),
            final(self).token_log() == old(self).token_log(),
            final(self).credit_log() == old(self).credit_log(),
    {
        match self.accounts.remove(&AccountKey { principal_id: principal_id.clone() }) {
            Some(_) => Ok(()),
            None => Err("Account not found".to_owned()),
        }
    }

    /// The accounts that `skip(offset).take(limit)` leaves of the principal order.
    pub fn get_accounts_paginated(&self, offset: u64, limit: usize) -> (r: Vec<AccountInfo>)
        requires
            self.wf(),
        ensures
            r@ == skip_take(self.accounts_seq(), offset as usize as int, limit as int),
    {
        keep_page(self.get_all_accounts(), offset as usize, limit)
    }

    /// Opens a fresh account for `principal_id` (replacing any account it had).
    pub fn create_account(&mut self, principal_id: String, now: u64) -> (r: Result<AccountInfo, String>)
        requires
            old(self).wf(),
        ensures
            final(self).wf(),
            r == Ok::<AccountInfo, String>(fresh_account(principal_id, now)),
            final(self).accounts() == old(self).accounts().insert(
                text_key(principal_id@),
                fresh_account(principal_id, now),
            ),
            final(self).grants() == old(self).grants(),
            final(self).token_log() == old(self).token_log(),
            final(self).credit_log() == old(self).credit_log(),
    {
        self.upsert_account(AccountInfo::new(principal_id, now))
    }

    /// Adds signed amounts to the token and credit balances of `principal_id`;
    /// refused when the account is missing or a balance would go below zero.
    pub fn update_account_balance(&mut self, principal_id: String, token_amount: i64, credit_amount: i64, now: u64) -> (r: Result<AccountInfo, String>)
        requires
            old(self).wf(),
            token_amount > i64::MIN,
            credit_amount > i64::MIN,
            old(self).accounts().contains_key(text_key(principal_id@)) ==> {
                let t = old(self).accounts()[text_key(principal_id@)].token_info;
                !(token_amount < 0 && t.token_balance < -token_amount) && !(credit_amount < 0 && t.credit_balance
                    < -credit_amount) ==> {
                    &&& i64::MIN <= (t.token_balance as i64) + token_amount <= i64::MAX
                    &&& i64::MIN <= (t.credit_balance as i64) + credit_amount <= i64::MAX
                }
            },
        ensures
            !old(self).accounts().contains_key(text_key(principal_id@)) ==> fails_with(r, "Account not found"@),
            old(self).accounts().contains_key(text_key(principal_id@)) && token_amount < 0 && old(self).accounts()[text_key(principal_id@)].token_info.token_balance < -token_amount ==> fails_with(r,
                "Insufficient token balance"@),
            old(self).accounts().contains_key(text_key(principal_id@)) && !(token_amount < 0 && old(self).accounts()[text_key(principal_id@)].token_info.token_balance < -token_amount)
                && credit_amount < 0 && old(self).accounts()[text_key(principal_id@)].token_info.credit_balance < -credit_amount ==> fails_with(r,
                "Insufficient credit balance"@),
            final(self).wf(),
            final(self).grants() == old(self).grants(),
            final(self).token_log() == old(self).token_log(),
            final(self).credit_log() == old(self).credit_log(),
            !old(self).accounts().contains_key(text_key(principal_id@)) ==> r is Err && final(self).accounts()
                == old(self).accounts(),
            old(self).accounts().contains_key(text_key(principal_id@)) ==> {
                let a = old(self).accounts()[text_key(principal_id@)];
                let t = a.token_info;
                if (token_amount < 0 && t.token_balance < -token_amount) || (credit_amount < 0 && t.credit_balance
                    < -credit_amount) {
                    r is Err && final(self).accounts() == old(self).accounts()
                } else {
                    let b = rebalanced(
                        a,
                        ((t.token_balance as i64) + token_amount) as i64 as u64,
                        ((t.credit_balance as i64) + credit_amount) as i64 as u64,
                        t.staked_credits,
                        now,
                    );
                    r == Ok::<AccountInfo, String>(b) && final(self).accounts() == old(self).accounts().insert(
                        text_key(principal_id@),
                        b,
                    )
                }
            },
    {
        let mut account = match self.accounts.get(&AccountKey { principal_id: principal_id.clone() }) {
            Some(a) => a.clone(),
            None => {
                return Err("Account not found".to_owned());
            },
        };
        if token_amount < 0 && account.token_info.token_balance < (-token_amount) as u64 {
            return Err("Insufficient token balance".to_owned());
        }
        if credit_amount < 0 && account.token_info.credit_balance < (-credit_amount) as u64 {
            return Err("Insufficient credit balance".to_owned());
        }
        let tb = account.token_info.token_balance as i64 + token_amount;
        let cb = account.token_info.credit_balance as i64 + credit_amount;
        account.token_info.token_balance = tb as u64;
        account.token_info.credit_balance = cb as u64;
        account.updated_at = Some(now);
        self.upsert_account(account)
    }

    // ---- activity logs ----

    /// Appends `activity` to the token log.
    pub fn record_token_activity(&mut self, activity: TokenActivity) -> (r: Result<(), String>)
        requires
            old(self).wf(),
        ensures
            final(self).wf(),
            r is Ok,
            final(self).token_log() == old(self).token_log().push(activity),
            final(self).credit_log() == old(self).credit_log(),
            final(self).accounts() == old(self).accounts(),
            final(self).accounts_seq() == old(self).accounts_seq(),
            final(self).grants() == old(self).grants(),
            final(self).grants_seq() == old(self).grants_seq(),
            final(self).mcp_grants() == old(self).mcp_grants(),
            final(self).mcp_grants_seq() == old(self).mcp_grants_seq(),
            final(self).new_user_policy() == old(self).new_user_policy(),
            final(self).new_mcp_policy() == old(self).new_mcp_policy(),
            final(self).recharge() == old(self).recharge(),
    {
        self.token_activities.push(activity);
        Ok(())
    }

    /// Appends `activity` to the credit log.
    pub fn record_credit_activity(&mut self, activity: CreditActivity) -> (r: Result<(), String>)
        requires
            old(self).wf(),
        ensures
            final(self).wf(),
            r is Ok,
            final(self).credit_log() == old(self).credit_log().push(activity),
            final(self).token_log() == old(self).token_log(),
            final(self).accounts() == old(self).accounts(),
            final(self).accounts_seq() == old(self).accounts_seq(),
            final(self).grants() == old(self).grants(),
            final(self).grants_seq() == old(self).grants_seq(),
            final(self).mcp_grants() == old(self).mcp_grants(),
            final(self).mcp_grants_seq() == old(self).mcp_grants_seq(),
            final(self).mcp_grant_keys() == old(self).mcp_grant_keys(),
            final(self).new_user_policy() == old(self).new_user_policy(),
            final(self).new_mcp_policy() == old(self).new_mcp_policy(),
            final(self).recharge() == old(self).recharge(),
    {
        self.credit_activities.push(activity);
        Ok(())
    }

    fn log_credit(&mut self, principal_id: String, amount: u64, kind: CreditActivityType, now: u64, note: String)
        requires
            old(self).wf(),
        ensures
            final(self).wf(),
            final(self).credit_log().len() == old(self).credit_log().len() + 1,
            final(self).credit_log().drop_last() == old(self).credit_log(),
            is_credit_event(final(self).credit_log().last(), principal_id@, amount, kind, now, note@),
            final(self).token_log() == old(self).token_log(),
            final(self).accounts() == old(self).accounts(),
            final(self).grants() == old(self).grants(),
            final(self).grants_seq() == old(self).grants_seq(),
            final(self).mcp_grants() == old(self).mcp_grants(),
            final(self).mcp_grants_seq() == old(self).mcp_grants_seq(),
            final(self).mcp_grant_keys() == old(self).mcp_grant_keys(),
            final(self).new_user_policy() == old(self).new_user_policy(),
            final(self).new_mcp_policy() == old(self).new_mcp_policy(),
            final(self).recharge() == old(self).recharge(),
    {
        let activity = CreditActivity {
            timestamp: now,
            principal_id,
            amount,
            activity_type: kind,
            status: TransferStatus::Completed,
            metadata: Some(note),
        };
        let _ = self.record_credit_activity(activity);
        assert(self.credit_activities@.drop_last() =~= old(self).credit_activities@);
    }

    // ---- credits and tokens ----

    /// Stakes `amount` credits of `principal_id` on `mcp_name`: the credits move from
    /// the balance to the stake, the MCP ledger records the stake, and the credit log
    /// the activity. Refused below the minimum, without an account, or without the
    /// credits.
    pub fn stack_credits(&mut self, mcps: &mut McpStore, principal_id: String, mcp_name: String, amount: u64, now: u64) -> (r: Result<AccountInfo, String>)
        requires
            old(self).wf(),
            old(mcps).wf(),
            amount >= MIN_STAKE_AMOUNT && old(self).accounts().contains_key(text_key(principal_id@))
                && old(self).accounts()[text_key(principal_id@)].token_info.credit_balance >= amount ==>
                old(self).accounts()[text_key(principal_id@)].token_info.staked_credits + amount <= u64::MAX,
        ensures
            amount < MIN_STAKE_AMOUNT ==> fails_with(r, "Minimum stake amount is 100"@),
            amount >= MIN_STAKE_AMOUNT && !old(self).accounts().contains_key(text_key(principal_id@)) ==> fails_with(r, "Account not found"@),
            amount >= MIN_STAKE_AMOUNT && old(self).accounts().contains_key(text_key(principal_id@)) && old(self).accounts()[text_key(principal_id@)].token_info.credit_balance < amount ==> fails_with(r,
                "Insufficient credit balance"@),
            final(self).wf(),
            final(mcps).wf(),
            final(self).grants() == old(self).grants(),
            final(self).mcp_grants() == old(self).mcp_grants(),
            final(self).token_log() == old(self).token_log(),
            final(mcps).items_map() == old(mcps).items_map(),
            final(mcps).items_seq() == old(mcps).items_seq(),
            amount < MIN_STAKE_AMOUNT || !old(self).accounts().contains_key(text_key(principal_id@))
                || old(self).accounts()[text_key(principal_id@)].token_info.credit_balance < amount ==> {
                &&& r is Err
                &&& final(self).accounts() == old(self).accounts()
                &&& final(self).credit_log() == old(self).credit_log()
                &&& final(mcps).records() == old(mcps).records()
            },
            amount >= MIN_STAKE_AMOUNT && old(self).accounts().contains_key(text_key(principal_id@))
                && old(self).accounts()[text_key(principal_id@)].token_info.credit_balance >= amount ==> {
                let b = staked(old(self).accounts()[text_key(principal_id@)], amount, now);
                &&& r == Ok::<AccountInfo, String>(b)
                &&& final(self).accounts() == old(self).accounts().insert(text_key(principal_id@), b)
                &&& final(mcps).records() == old(mcps).records().push(
                    McpStackRecord {
                        principal_id,
                        mcp_name,
                        stack_time: now,
                        stack_amount: amount,
                        stack_status: StackStatus::Stacked,
                    },
                )
                &&& final(self).credit_log().drop_last() == old(self).credit_log()
                &&& is_credit_event(
                    final(self).credit_log().last(),
                    principal_id@,
                    amount,
                    CreditActivityType::Stack,
                    now,
                    "Credit stacking"@,
                )
            },
    {
        if amount < MIN_STAKE_AMOUNT {
            return Err("Minimum stake amount is 100".to_owned());
        }
        let mut account = match self.accounts.get(&AccountKey { principal_id: principal_id.clone() }) {
            Some(a) => a.clone(),
            None => {
                return Err("Account not found".to_owned());
            },
        };
        if account.token_info.credit_balance < amount {
            return Err("Insufficient credit balance".to_owned());
        }
        account.token_info.credit_balance = account.token_info.credit_balance - amount;
        account.token_info.staked_credits = account.token_info.staked_credits + amount;
        account.updated_at = Some(now);
        let result = self.upsert_account(account);
        let who = principal_id.clone();
        let _ = mcps.stack_mcp(mcp_name, principal_id, amount, now);
        self.log_credit(who, amount, CreditActivityType::Stack, now, "Credit stacking".to_owned());
        result
    }

    /// Moves `amount` credits of `principal_id` back from the stake to the balance,
    /// and logs it; refused without an account or without that much staked.
    pub fn unstack_credits(&mut self, principal_id: String, amount: u64, now: u64) -> (r: Result<AccountInfo, String>)
        requires
            old(self).wf(),
            old(self).accounts().contains_key(text_key(principal_id@)) && old(self).accounts()[text_key(
                principal_id@,
            )].token_info.staked_credits >= amount ==> old(self).accounts()[text_key(
                principal_id@,
            )].token_info.credit_balance + amount <= u64::MAX,
        ensures
            !old(self).accounts().contains_key(text_key(principal_id@)) ==> fails_with(r, "Account not found"@),
            old(self).accounts().contains_key(text_key(principal_id@)) && old(self).accounts()[text_key(principal_id@)].token_info.staked_credits < amount ==> fails_with(r, "Insufficient staked credits"@),
            final(self).wf(),
            final(self).grants() == old(self).grants(),
            final(self).mcp_grants() == old(self).mcp_grants(),
            final(self).token_log() == old(self).token_log(),
            !old(self).accounts().contains_key(text_key(principal_id@)) || old(self).accounts()[text_key(
                principal_id@,
            )].token_info.staked_credits < amount ==> {
                &&& r is Err
                &&& final(self).accounts() == old(self).accounts()
                &&& final(self).credit_log() == old(self).credit_log()
            },
            old(self).accounts().contains_key(text_key(principal_id@)) && old(self).accounts()[text_key(
                principal_id@,
            )].token_info.staked_credits >= amount ==> {
                let b = unstaked(old(self).accounts()[text_key(principal_id@)], amount, now);
                &&& r == Ok::<AccountInfo, String>(b)
                &&& final(self).accounts() == old(self).accounts().insert(text_key(principal_id@), b)
                &&& final(self).credit_log().drop_last() == old(self).credit_log()
                &&& is_credit_event(
                    final(self).credit_log().last(),
                    principal_id@,
                    amount,
                    CreditActivityType::Unstack,
                    now,
                    "Credit unstacking"@,
                )
            },
    {
        let mut account = match self.accounts.get(&AccountKey { principal_id: principal_id.clone() }) {
            Some(a) => a.clone(),
            None => {
                return Err("Account not found".to_owned());
            },
        };
        if account.token_info.staked_credits < amount {
            return Err("Insufficient staked credits".to_owned());
        }
        account.token_info.staked_credits = account.token_info.staked_credits - amount;
        account.token_info.credit_balance = account.token_info.credit_balance + amount;
        account.updated_at = Some(now);
        let result = self.upsert_account(account);
        self.log_credit(principal_id, amount, CreditActivityType::Unstack, now, "Credit unstacking".to_owned());
        result
    }

    /// Moves `amount` tokens from `from` to `to` and logs it; refused when either
    /// account is missing or `from` lacks the tokens. The balance of `to` is read
    /// before `from` is written, and `to` is written last.
    pub fn transfer_tokens(&mut self, from: String, to: String, amount: u64, now: u64) -> (r: Result<AccountInfo, String>)
        requires
            old(self).wf(),
            old(self).accounts().contains_key(text_key(from@)) && old(self).accounts().contains_key(text_key(to@))
                && old(self).accounts()[text_key(from@)].token_info.token_balance >= amount ==> old(self).accounts()[text_key(
                to@,
            )].token_info.token_balance + amount <= u64::MAX,
        ensures
            !old(self).accounts().contains_key(text_key(from@)) ==> fails_with(r, "From account not found"@),
            old(self).accounts().contains_key(text_key(from@)) && !old(self).accounts().contains_key(text_key(to@)) ==> fails_with(r, "To account not found"@),
            old(self).accounts().contains_key(text_key(from@)) && old(self).accounts().contains_key(text_key(to@)) && old(self).accounts()[text_key(from@)].token_info.token_balance
                < amount ==> fails_with(r, "Insufficient token balance"@),
            final(self).wf(),
            final(self).grants() == old(self).grants(),
            final(self).mcp_grants() == old(self).mcp_grants(),
            final(self).credit_log() == old(self).credit_log(),
            !old(self).accounts().contains_key(text_key(from@)) || !old(self).accounts().contains_key(text_key(to@))
                || old(self).accounts()[text_key(from@)].token_info.token_balance < amount ==> {
                &&& r is Err
                &&& final(self).accounts() == old(self).accounts()
                &&& final(self).token_log() == old(self).token_log()
            },
            old(self).accounts().contains_key(text_key(from@)) && old(self).accounts().contains_key(text_key(to@))
                && old(self).accounts()[text_key(from@)].token_info.token_balance >= amount ==> {
                &&& r == Ok::<AccountInfo, String>(debited(old(self).accounts()[text_key(from@)], amount, now))
                &&& final(self).accounts() == transferred(old(self).accounts(), from@, to@, amount, now)
                &&& final(self).token_log().drop_last() == old(self).token_log()
                &&& final(self).token_log().last().timestamp == now
                &&& final(self).token_log().last().from@ == from@
                &&& final(self).token_log().last().to@ == to@
                &&& final(self).token_log().last().amount == amount
                &&& final(self).token_log().last().activity_type == TokenActivityType::Transfer
                &&& final(self).token_log().last().status == TransferStatus::Completed
                &&& final(self).token_log().last().metadata matches Some(m) && m@ == "Token transfer"@
            },
    {
        let mut from_account = match self.accounts.get(&AccountKey { principal_id: from.clone() }) {
            Some(a) => a.clone(),
            None => {
                return Err("From account not found".to_owned());
            },
        };
        let mut to_account = match self.accounts.get(&AccountKey { principal_id: to.clone() }) {
            Some(a) => a.clone(),
            None => {
                return Err("To account not found".to_owned());
            },
        };
        if from_account.token_info.token_balance < amount {
            return Err("Insufficient token balance".to_owned());
        }
        from_account.token_info.token_balance = from_account.token_info.token_balance - amount;
        to_account.token_info.token_balance = to_account.token_info.token_balance + amount;
        from_account.updated_at = Some(now);
        to_account.updated_at = Some(now);
        let result = self.upsert_account(from_account);
        let _ = self.upsert_account(to_account);
        let activity = TokenActivity {
            timestamp: now,
            from,
            to,
            amount,
            activity_type: TokenActivityType::Transfer,
            status: TransferStatus::Completed,
            metadata: Some("Token transfer".to_owned()),
        };
        let _ = self.record_token_activity(activity);
        assert(self.token_activities@.drop_last() =~= old(self).token_activities@);
        result
    }

    /// Spends `amount` credits of `principal_id` on `service` and logs it; refused
    /// without an account or without the credits.
    pub fn use_credits(&mut self, principal_id: String, amount: u64, service: String, metadata: Option<String>, now: u64) -> (r: Result<AccountInfo, String>)
        requires
            old(self).wf(),
        ensures
            !old(self).accounts().contains_key(text_key(principal_id@)) ==> fails_with(r, "Account not found"@),
            old(self).accounts().contains_key(text_key(principal_id@)) && old(self).accounts()[text_key(principal_id@)].token_info.credit_balance < amount ==> fails_with(r, "Insufficient credit balance"@),
            final(self).wf(),
            final(self).grants() == old(self).grants(),
            final(self).mcp_grants() == old(self).mcp_grants(),
            final(self).token_log() == old(self).token_log(),
            !old(self).accounts().contains_key(text_key(principal_id@)) || old(self).accounts()[text_key(
                principal_id@,
            )].token_info.credit_balance < amount ==> {
                &&& r is Err
                &&& final(self).accounts() == old(self).accounts()
                &&& final(self).credit_log() == old(self).credit_log()
            },
            old(self).accounts().contains_key(text_key(principal_id@)) && old(self).accounts()[text_key(
                principal_id@,
            )].token_info.credit_balance >= amount ==> {
                let a = old(self).accounts()[text_key(principal_id@)];
                let b = rebalanced(
                    a,
                    a.token_info.token_balance,
                    (a.token_info.credit_balance - amount) as u64,
                    a.token_info.staked_credits,
                    now,
                );
                &&& r == Ok::<AccountInfo, String>(b)
                &&& final(self).accounts() == old(self).accounts().insert(text_key(principal_id@), b)
                &&& final(self).credit_log().drop_last() == old(self).credit_log()
                &&& is_credit_event(
                    final(self).credit_log().last(),
                    principal_id@,
                    amount,
                    CreditActivityType::Spend,
                    now,
                    usage_note(service@, metadata),
                )
            },
    {
        let mut account = match self.accounts.get(&AccountKey { principal_id: principal_id.clone() }) {
            Some(a) => a.clone(),
            None => {
                return Err("Account not found".to_owned());
            },
        };
        if account.token_info.credit_balance < amount {
            return Err("Insufficient credit balance".to_owned());
        }
        account.token_info.credit_balance = account.token_info.credit_balance - amount;
        account.updated_at = Some(now);
        let result = self.upsert_account(account);
        let note = usage_text(&service, metadata);
        self.log_credit(principal_id, amount, CreditActivityType::Spend, now, note);
        result
    }

    /// Logs that `principal_id` spent `amount` credits on `service`, without touching
    /// any balance.
    pub fn log_credit_usage(&mut self, principal_id: String, amount: u64, service: String, metadata: Option<String>, now: u64) -> (r: Result<(), String>)
        requires
            old(self).wf(),
        ensures
            final(self).wf(),
            r is Ok,
            final(self).accounts() == old(self).accounts(),
            final(self).grants() == old(self).grants(),
            final(self).token_log() == old(self).token_log(),
            final(self).credit_log().drop_last() == old(self).credit_log(),
            final(self).credit_log().len() == old(self).credit_log().len() + 1,
            is_credit_event(
                final(self).credit_log().last(),
                principal_id@,
                amount,
                CreditActivityType::Spend,
                now,
                usage_note(service@, metadata),
            ),
    {
        let note = usage_text(&service, metadata);
        self.log_credit(principal_id, amount, CreditActivityType::Spend, now, note);
        Ok(())
    }
}

impl TokenStore {
    // ---- new-user grants ----

    /// Stores `grant` under its recipient, replacing what was there.
    pub fn create_token_grant(&mut self, grant: TokenGrant) -> (r: Result<(), String>)
        requires
            old(self).wf(),
        ensures
            final(self).wf(),
            r is Ok,
            final(self).grants() == old(self).grants().insert(text_key(grant.recipient@), grant),
            final(self).accounts() == old(self).accounts(),
            final(self).mcp_grants() == old(self).mcp_grants(),
            final(self).token_log() == old(self).token_log(),
            final(self).credit_log() == old(self).credit_log(),
    {
        let key = grant.recipient.clone();
        self.newuser_grants.insert(key, grant);
        Ok(())
    }

    /// The new-user grant of `recipient`.
    pub fn get_token_grant(&self, recipient: &str) -> (r: Option<TokenGrant>)
        requires
            self.wf(),
        ensures
            r == (if self.grants().contains_key(text_key(recipient@)) {
                Some(self.grants()[text_key(recipient@)])
            } else {
                None::<TokenGrant>
            }),
    {
        let key = recipient.to_owned();
        match self.newuser_grants.get(&key) {
            Some(g) => Some(g.clone()),
            None => None,
        }
    }

    /// Claims what is left of the new-user grant of `principal_id` into its credit
    /// balance, marks the grant active, and logs the claim.
    pub fn claim_grant(&mut self, principal_id: &str, now: u64) -> (r: Result<u64, String>)
        requires
            old(self).wf(),
            old(self).grants().contains_key(text_key(principal_id@)) ==> old(self).grants()[text_key(
                principal_id@,
            )].claimed_amount <= old(self).grants()[text_key(principal_id@)].amount,
            old(self).grants().contains_key(text_key(principal_id@)) && old(self).accounts().contains_key(
                text_key(principal_id@),
            ) ==> old(self).accounts()[text_key(principal_id@)].token_info.credit_balance + (old(
                self,
            ).grants()[text_key(principal_id@)].amount - old(self).grants()[text_key(
                principal_id@,
            )].claimed_amount) <= u64::MAX,
        ensures
            !old(self).accounts().contains_key(text_key(principal_id@)) ==> fails_with(r, "Account not found"@),
            old(self).accounts().contains_key(text_key(principal_id@)) && !old(self).grants().contains_key(text_key(principal_id@)) ==> fails_with(r, "No grant found for this account"@),
            old(self).accounts().contains_key(text_key(principal_id@)) && old(self).grants().contains_key(text_key(principal_id@)) && now < old(self).grants()[text_key(principal_id@)].start_time ==> fails_with(r,
                "Grant period has not started"@),
            old(self).accounts().contains_key(text_key(principal_id@)) && old(self).grants().contains_key(text_key(principal_id@)) && now >= old(self).grants()[text_key(principal_id@)].start_time && old(self).grants()[text_key(principal_id@)].amount
                == old(self).grants()[text_key(principal_id@)].claimed_amount ==> fails_with(r, "No credits available to claim"@),
            final(self).wf(),
            final(self).mcp_grants() == old(self).mcp_grants(),
            final(self).token_log() == old(self).token_log(),
            grant_claim_outcome(*old(self), *final(self), principal_id@, now, r),
    {
        let key = principal_id.to_owned();
        let mut account = match self.accounts.get(&AccountKey { principal_id: key.clone() }) {
            Some(a) => a.clone(),
            None => {
                return Err("Account not found".to_owned());
            },
        };
        let grant = match self.newuser_grants.get(&key) {
            Some(g) => g.clone(),
            None => {
                return Err("No grant found for this account".to_owned());
            },
        };
        if now < grant.start_time {
            return Err("Grant period has not started".to_owned());
        }
        let remaining = grant.amount - grant.claimed_amount;
        if remaining == 0 {
            return Err("No credits available to claim".to_owned());
        }
        let mut updated = grant;
        updated.claimed_amount = updated.claimed_amount + remaining;
        updated.status = TokenGrantStatus::Active;
        let _ = self.create_token_grant(updated);
        account.token_info.credit_balance = account.token_info.credit_balance + remaining;
        account.updated_at = Some(now);
        let _ = self.upsert_account(account);
        self.log_credit(key, remaining, CreditActivityType::Earn, now, "Grant credit claim".to_owned());
        Ok(remaining)
    }

    /// All new-user grants, in recipient order.
    pub fn get_all_token_grants(&self) -> (r: Vec<TokenGrant>)
        requires
            self.wf(),
        ensures
            r@ == self.grants_seq(),
    {
        let mut out: Vec<TokenGrant> = Vec::new();
        let n = self.newuser_grants.len();
        for i in 0..n
            invariant
                self.newuser_grants.wf(),
                n == self.newuser_grants.val_seq().len(),
                out@ == self.newuser_grants.val_seq().subrange(0, i as int),
        {
            let (_, v) = self.newuser_grants.entry_at(i);
            out.push(v.clone());
            proof {
                assert(out@ =~= self.newuser_grants.val_seq().subrange(0, i + 1));
            }
        }
        assert(out@ =~= self.newuser_grants.val_seq());
        out
    }

    /// The new-user grants that `skip(offset).take(limit)` leaves.
    pub fn get_token_grants_paginated(&self, offset: u64, limit: usize) -> (r: Vec<TokenGrant>)
        requires
            self.wf(),
        ensures
            r@ == skip_take(self.grants_seq(), offset as usize as int, limit as int),
    {
        keep_page(self.get_all_token_grants(), offset as usize, limit)
    }

    /// The new-user grants whose recipient is `recipient`, in order.
    pub fn get_token_grants_by_recipient(&self, recipient: &str) -> (r: Vec<TokenGrant>)
        requires
            self.wf(),
        ensures
            r@ == self.grants_seq().filter(|g: TokenGrant| g.recipient@ == recipient@),
    {
        let ghost pred = |g: TokenGrant| g.recipient@ == recipient@;
        let mut out: Vec<TokenGrant> = Vec::new();
        let n = self.newuser_grants.len();
        for i in 0..n
            invariant
                self.newuser_grants.wf(),
                n == self.newuser_grants.val_seq().len(),
                pred == (|g: TokenGrant| g.recipient@ == recipient@),
                out@ == self.newuser_grants.val_seq().take(i as int).filter(pred),
        {
            proof {
                reveal_with_fuel(Seq::<_>::filter, 1);
                assert(self.newuser_grants.val_seq().take(i + 1).drop_last() =~= self.newuser_grants.val_seq().take(i as int));
            }
            let (_, g) = self.newuser_grants.entry_at(i);
            if text_equal(g.recipient.as_str(), recipient) {
                out.push(g.clone());
            }
        }
        assert(self.newuser_grants.val_seq().take(n as int) =~= self.newuser_grants.val_seq());
        out
    }

    /// The new-user grants with status `status`, in order.
    pub fn get_token_grants_by_status(&self, status: &TokenGrantStatus) -> (r: Vec<TokenGrant>)
        requires
            self.wf(),
        ensures
            r@ == self.grants_seq().filter(|g: TokenGrant| g.status == *status),
    {
        let ghost pred = |g: TokenGrant| g.status == *status;
        let mut out: Vec<TokenGrant> = Vec::new();
        let n = self.newuser_grants.len();
        for i in 0..n
            invariant
                self.newuser_grants.wf(),
                n == self.newuser_grants.val_seq().len(),
                pred == (|g: TokenGrant| g.status == *status),
                out@ == self.newuser_grants.val_seq().take(i as int).filter(pred),
        {
            proof {
                reveal_with_fuel(Seq::<_>::filter, 1);
                assert(self.newuser_grants.val_seq().take(i + 1).drop_last() =~= self.newuser_grants.val_seq().take(i as int));
            }
            let (_, g) = self.newuser_grants.entry_at(i);
            if g.status == *status {
                out.push(g.clone());
            }
        }
        assert(self.newuser_grants.val_seq().take(n as int) =~= self.newuser_grants.val_seq());
        out
    }

    /// The number of new-user grants.
    pub fn get_token_grants_count(&self) -> (r: u64)
        requires
            self.wf(),
        ensures
            r == self.grants_seq().len(),
            r == self.grants().dom().len(),
    {
        proof {
            self.newuser_grants.lemma_dom_len();
        }
        self.newuser_grants.len() as u64
    }

    // ---- MCP grants ----

    /// Stores `grant` under its recipient and MCP, replacing what was there.
    pub fn create_mcp_grant(&mut self, grant: NewMcpGrant) -> (r: Result<(), String>)
        requires
            old(self).wf(),
        ensures
            final(self).wf(),
            r is Ok,
            final(self).mcp_grants() == old(self).mcp_grants().insert(
                grant_key(grant.recipient@, grant.mcp_name@),
                grant,
            ),
            final(self).accounts() == old(self).accounts(),
            final(self).grants() == old(self).grants(),
            final(self).token_log() == old(self).token_log(),
            final(self).credit_log() == old(self).credit_log(),
    {
        let key = NewMcpGrantKey { recipient: grant.recipient.clone(), mcp_name: grant.mcp_name.clone() };
        self.mcp_grants.insert(key, grant);
        Ok(())
    }

    /// The grant of `recipient` for `mcp_name`.
    pub fn get_mcp_grant(&self, recipient: &str, mcp_name: &str) -> (r: Option<NewMcpGrant>)
        requires
            self.wf(),
        ensures
            r == (if self.mcp_grants().contains_key(grant_key(recipient@, mcp_name@)) {
                Some(self.mcp_grants()[grant_key(recipient@, mcp_name@)])
            } else {
                None::<NewMcpGrant>
            }),
    {
        let key = NewMcpGrantKey { recipient: recipient.to_owned(), mcp_name: mcp_name.to_owned() };
        match self.mcp_grants.get(&key) {
            Some(g) => Some(g.clone()),
            None => None,
        }
    }

    /// All MCP grants, in (recipient, MCP) order.
    pub fn get_all_mcp_grants(&self) -> (r: Vec<NewMcpGrant>)
        requires
            self.wf(),
        ensures
            r@ == self.mcp_grants_seq(),
    {
        let mut out: Vec<NewMcpGrant> = Vec::new();
        let n = self.mcp_grants.len();
        for i in 0..n
            invariant
                self.mcp_grants.wf(),
                n == self.mcp_grants.val_seq().len(),
                out@ == self.mcp_grants.val_seq().subrange(0, i as int),
        {
            let (_, v) = self.mcp_grants.entry_at(i);
            out.push(v.clone());
            proof {
                assert(out@ =~= self.mcp_grants.val_seq().subrange(0, i + 1));
            }
        }
        assert(out@ =~= self.mcp_grants.val_seq());
        out
    }

    /// The MCP grants that `skip(offset).take(limit)` leaves.
    pub fn get_mcp_grants_paginated(&self, offset: u64, limit: usize) -> (r: Vec<NewMcpGrant>)
        requires
            self.wf(),
        ensures
            r@ == skip_take(self.mcp_grants_seq(), offset as usize as int, limit as int),
    {
        keep_page(self.get_all_mcp_grants(), offset as usize, limit)
    }

    /// The MCP grants of `recipient`, in order.
    pub fn get_mcp_grants_by_recipient(&self, recipient: &str) -> (r: Vec<NewMcpGrant>)
        requires
            self.wf(),
        ensures
            r@ == self.mcp_grants_seq().filter(|g: NewMcpGrant| g.recipient@ == recipient@),
    {
        let ghost pred = |g: NewMcpGrant| g.recipient@ == recipient@;
        let mut out: Vec<NewMcpGrant> = Vec::new();
        let n = self.mcp_grants.len();
        for i in 0..n
            invariant
                self.mcp_grants.wf(),
                n == self.mcp_grants.val_seq().len(),
                pred == (|g: NewMcpGrant| g.recipient@ == recipient@),
                out@ == self.mcp_grants.val_seq().take(i as int).filter(pred),
        {
            proof {
                reveal_with_fuel(Seq::<_>::filter, 1);
                assert(self.mcp_grants.val_seq().take(i + 1).drop_last() =~= self.mcp_grants.val_seq().take(i as int));
            }
            let (_, g) = self.mcp_grants.entry_at(i);
            if text_equal(g.recipient.as_str(), recipient) {
                out.push(g.clone());
            }
        }
        assert(self.mcp_grants.val_seq().take(n as int) =~= self.mcp_grants.val_seq());
        out
    }

    /// The grants for MCP `mcp_name`, in order.
    pub fn get_mcp_grants_by_mcp(&self, mcp_name: &str) -> (r: Vec<NewMcpGrant>)
        requires
            self.wf(),
        ensures
            r@ == self.mcp_grants_seq().filter(|g: NewMcpGrant| g.mcp_name@ == mcp_name@),
    {
        let ghost pred = |g: NewMcpGrant| g.mcp_name@ == mcp_name@;
        let mut out: Vec<NewMcpGrant> = Vec::new();
        let n = self.mcp_grants.len();
        for i in 0..n
            invariant
                self.mcp_grants.wf(),
                n == self.mcp_grants.val_seq().len(),
                pred == (|g: NewMcpGrant| g.mcp_name@ == mcp_name@),
                out@ == self.mcp_grants.val_seq().take(i as int).filter(pred),
        {
            proof {
                reveal_with_fuel(Seq::<_>::filter, 1);
                assert(self.mcp_grants.val_seq().take(i + 1).drop_last() =~= self.mcp_grants.val_seq().take(i as int));
            }
            let (_, g) = self.mcp_grants.entry_at(i);
            if text_equal(g.mcp_name.as_str(), mcp_name) {
                out.push(g.clone());
            }
        }
        assert(self.mcp_grants.val_seq().take(n as int) =~= self.mcp_grants.val_seq());
        out
    }

    /// The MCP grants with status `status`, in order.
    pub fn get_mcp_grants_by_status(&self, status: &TokenGrantStatus) -> (r: Vec<NewMcpGrant>)
        requires
            self.wf(),
        ensures
            r@ == self.mcp_grants_seq().filter(|g: NewMcpGrant| g.status == *status),
    {
        let ghost pred = |g: NewMcpGrant| g.status == *status;
        let mut out: Vec<NewMcpGrant> = Vec::new();
        let n = self.mcp_grants.len();
        for i in 0..n
            invariant
                self.mcp_grants.wf(),
                n == self.mcp_grants.val_seq().len(),
                pred == (|g: NewMcpGrant| g.status == *status),
                out@ == self.mcp_grants.val_seq().take(i as int).filter(pred),
        {
            proof {
                reveal_with_fuel(Seq::<_>::filter, 1);
                assert(self.mcp_grants.val_seq().take(i + 1).drop_last() =~= self.mcp_grants.val_seq().take(i as int));
            }
            let (_, g) = self.mcp_grants.entry_at(i);
            if g.status == *status {
                out.push(g.clone());
            }
        }
        assert(self.mcp_grants.val_seq().take(n as int) =~= self.mcp_grants.val_seq());
        out
    }

    /// The number of MCP grants.
    pub fn get_mcp_grants_count(&self) -> (r: u64)
        requires
            self.wf(),
        ensures
            r == self.mcp_grants_seq().len(),
    {
        self.mcp_grants.len() as u64
    }
}

impl TokenStore {
    /// The (recipient, MCP) keys of the MCP grants, in order.
    pub closed spec fn mcp_grant_keys(&self) -> Seq<KeyFields> {
        self.mcp_grants.key_seq()
    }

    /// Claims every active MCP grant of `principal_id` that has credits left: each
    /// such grant becomes fully claimed and completed, the credits go to the
    /// account, and the claim is logged. Refused without an account, without active
    /// grants, or when no active grant has credits left.
    pub fn claim_mcp_grant(&mut self, principal_id: &str, now: u64) -> (r: Result<u64, String>)
        requires
            old(self).wf(),
            forall|i: int| 0 <= i < old(self).mcp_grants_seq().len() && active_grant_of(
                #[trigger] old(self).mcp_grants_seq()[i],
                principal_id@,
            ) ==> old(self).mcp_grants_seq()[i].claimed_amount <= old(self).mcp_grants_seq()[i].amount,
            old(self).accounts().contains_key(text_key(principal_id@)) ==> old(self).accounts()[text_key(
                principal_id@,
            )].token_info.credit_balance + unclaimed_total(old(self).mcp_grants_seq(), principal_id@)
                <= u64::MAX,
        ensures
            !old(self).accounts().contains_key(text_key(principal_id@)) ==> fails_with(r, "Account not found"@),
            old(self).accounts().contains_key(text_key(principal_id@)) && unclaimed_total(old(self).mcp_grants_seq(), principal_id@) == 0 && !(exists|q: int|
                0 <= q < old(self).mcp_grants_seq().len() && active_grant_of(#[trigger] old(self).mcp_grants_seq()[q], principal_id@))
                ==> fails_with(r, "No active MCP grants found for this account"@),
            old(self).accounts().contains_key(text_key(principal_id@)) && unclaimed_total(old(self).mcp_grants_seq(), principal_id@) == 0 && (exists|q: int|
                0 <= q < old(self).mcp_grants_seq().len() && active_grant_of(#[trigger] old(self).mcp_grants_seq()[q], principal_id@))
                ==> fails_with(r, "No credits available to claim from active grants"@),
            final(self).wf(),
            final(self).grants() == old(self).grants(),
            final(self).token_log() == old(self).token_log(),
            final(self).mcp_grant_keys() == old(self).mcp_grant_keys(),
            !old(self).accounts().contains_key(text_key(principal_id@)) || unclaimed_total(
                old(self).mcp_grants_seq(),
                principal_id@,
            ) == 0 ==> {
                &&& r is Err
                &&& final(self).accounts() == old(self).accounts()
                &&& final(self).mcp_grants_seq() == old(self).mcp_grants_seq()
                &&& final(self).credit_log() == old(self).credit_log()
            },
            old(self).accounts().contains_key(text_key(principal_id@)) && unclaimed_total(
                old(self).mcp_grants_seq(),
                principal_id@,
            ) > 0 ==> {
                let k = text_key(principal_id@);
                let a = old(self).accounts()[k];
                let total = unclaimed_total(old(self).mcp_grants_seq(), principal_id@) as u64;
                &&& r == Ok::<u64, String>(total)
                &&& final(self).mcp_grants_seq() == old(self).mcp_grants_seq().map_values(
                    |g: NewMcpGrant| if claimable_mcp_grant(g, principal_id@) { completed_grant(g) } else { g },
                )
                &&& final(self).accounts() == old(self).accounts().insert(
                    k,
                    rebalanced(
                        a,
                        a.token_info.token_balance,
                        (a.token_info.credit_balance + total) as u64,
                        a.token_info.staked_credits,
                        now,
                    ),
                )
                &&& final(self).credit_log().drop_last() == old(self).credit_log()
                &&& is_credit_event(
                    final(self).credit_log().last(),
                    principal_id@,
                    total,
                    CreditActivityType::Earn,
                    now,
                    "MCP grant credit claim for all active grants"@,
                )
            },
    {
        let key = principal_id.to_owned();
        let mut account = match self.accounts.get(&AccountKey { principal_id: key.clone() }) {
            Some(a) => a.clone(),
            None => {
                return Err("Account not found".to_owned());
            },
        };
        let ghost old_seq = self.mcp_grants.val_seq();
        let ghost old_keys = self.mcp_grants.key_seq();
        let ghost f = |g: NewMcpGrant| if claimable_mcp_grant(g, principal_id@) { completed_grant(g) } else { g };
        proof {
            lemma_unclaimed_bound(old_seq, principal_id@, old_seq.len() as int);
        }
        let mut total: u64 = 0;
        let mut any_active = false;
        let n = self.mcp_grants.len();
        for i in 0..n
            invariant
                self.wf(),
                n == old_seq.len(),
                self.mcp_grants.key_seq() == old_keys,
                self.mcp_grants.val_seq().len() == n,
                f == (|g: NewMcpGrant| if claimable_mcp_grant(g, principal_id@) { completed_grant(g) } else { g }),
                forall|q: int| 0 <= q < i ==> #[trigger] self.mcp_grants.val_seq()[q] == f(old_seq[q]),
                forall|q: int| i <= q < n ==> #[trigger] self.mcp_grants.val_seq()[q] == old_seq[q],
                total == unclaimed_total(old_seq.take(i as int), principal_id@),
                unclaimed_total(old_seq, principal_id@) <= u64::MAX,
                any_active == (exists|q: int| 0 <= q < i && active_grant_of(#[trigger] old_seq[q], principal_id@)),
                forall|j: int| 0 <= j < old_seq.len() && active_grant_of(#[trigger] old_seq[j], principal_id@)
                    ==> old_seq[j].claimed_amount <= old_seq[j].amount,
                self.accounts() == old(self).accounts(),
                self.grants() == old(self).grants(),
                self.token_log() == old(self).token_log(),
                self.credit_log() == old(self).credit_log(),
                self.new_user_policy() == old(self).new_user_policy(),
                self.new_mcp_policy() == old(self).new_mcp_policy(),
                self.recharge() == old(self).recharge(),
        {
            proof {
                assert(old_seq.take(i + 1).drop_last() =~= old_seq.take(i as int));
                lemma_unclaimed_bound(old_seq, principal_id@, i + 1);
            }
            let (_, gref) = self.mcp_grants.entry_at(i);
            let g = gref.clone();
            proof {
                assert(g == old_seq[i as int]);
                if active_grant_of(old_seq[i as int], principal_id@) {
                    assert(0 <= i < i + 1 && active_grant_of(old_seq[i as int], principal_id@));
                }
            }
            if text_equal(g.recipient.as_str(), principal_id) && g.status == TokenGrantStatus::Active {
                any_active = true;
                let remaining = g.amount - g.claimed_amount;
                if remaining > 0 {
                    proof {
                        self.mcp_grants.lemma_at(i as int);
                    }
                    let gkey = NewMcpGrantKey { recipient: g.recipient.clone(), mcp_name: g.mcp_name.clone() };
                    let mut updated = g;
                    updated.claimed_amount = updated.claimed_amount + remaining;
                    updated.status = TokenGrantStatus::Completed;
                    let ghost before = self.mcp_grants.val_seq();
                    self.mcp_grants.insert(gkey, updated);
                    proof {
                        let j = choose|j: int| 0 <= j < old_keys.len() && old_keys[j] == grant_key(old_seq[i as int].recipient@, old_seq[i as int].mcp_name@)
                            && self.mcp_grants.key_seq() == old_keys && self.mcp_grants.val_seq() == before.update(j, updated);
                        lemma_sorted_distinct(old_keys, j, i as int);
                        assert forall|q: int| 0 <= q < i + 1 implies #[trigger] self.mcp_grants.val_seq()[q] == f(old_seq[q]) by {
                            if q < i {
                                assert(self.mcp_grants.val_seq()[q] == before[q]);
                            }
                        }
                        assert forall|q: int| i + 1 <= q < n implies #[trigger] self.mcp_grants.val_seq()[q] == old_seq[q] by {
                            assert(self.mcp_grants.val_seq()[q] == before[q]);
                        }
                    }
                    total = total + remaining;
                }
            }
        }
        assert(old_seq.take(n as int) =~= old_seq);
        assert(self.mcp_grants.val_seq() =~= old_seq.map_values(f));
        if total == 0 {
            proof {
                assert forall|q: int| 0 <= q < n implies !claimable_mcp_grant(#[trigger] old_seq[q], principal_id@) by {
                    if claimable_mcp_grant(old_seq[q], principal_id@) {
                        lemma_unclaimed_positive(old_seq, principal_id@, q);
                    }
                }
                assert(self.mcp_grants.val_seq() =~= old_seq);
            }
            if !any_active {
                return Err("No active MCP grants found for this account".to_owned());
            }
            return Err("No credits available to claim from active grants".to_owned());
        }
        account.token_info.credit_balance = account.token_info.credit_balance + total;
        account.updated_at = Some(now);
        let _ = self.upsert_account(account);
        self.log_credit(key, total, CreditActivityType::Earn, now, "MCP grant credit claim for all active grants".to_owned());
        Ok(total)
    }
}

impl TokenStore {
    /// Claims what is left of the grant of `principal_id` for `mcp_name`: the grant
    /// becomes fully claimed and completed, the credits go to the account, and the
    /// claim is logged. Refused without an account, without that grant, when the
    /// grant is not active, or when nothing is left.
    pub fn claim_mcp_grant_with_mcpname(&mut self, principal_id: &str, mcp_name: &str, now: u64) -> (r: Result<u64, String>)
        requires
            old(self).wf(),
            old(self).mcp_grants().contains_key(grant_key(principal_id@, mcp_name@)) ==> old(self).mcp_grants()[grant_key(
                principal_id@,
                mcp_name@,
            )].claimed_amount <= old(self).mcp_grants()[grant_key(principal_id@, mcp_name@)].amount,
            old(self).mcp_grants().contains_key(grant_key(principal_id@, mcp_name@)) && old(self).accounts().contains_key(
                text_key(principal_id@),
            ) ==> old(self).accounts()[text_key(principal_id@)].token_info.credit_balance + (old(
                self,
            ).mcp_grants()[grant_key(principal_id@, mcp_name@)].amount - old(self).mcp_grants()[grant_key(
                principal_id@,
                mcp_name@,
            )].claimed_amount) <= u64::MAX,
        ensures
            final(self).wf(),
            final(self).grants() == old(self).grants(),
            final(self).token_log() == old(self).token_log(),
            mcp_claim_outcome(*old(self), *final(self), principal_id@, mcp_name@, now, r),
    {
        let key = principal_id.to_owned();
        let mut account = match self.accounts.get(&AccountKey { principal_id: key.clone() }) {
            Some(a) => a.clone(),
            None => {
                return Err("Account not found".to_owned());
            },
        };
        let grant = match self.get_mcp_grant(principal_id, mcp_name) {
            Some(g) => g,
            None => {
                let head = concat3("No MCP grant found for account ", principal_id, " and MCP ");
                return Err(concat_text(head.as_str(), mcp_name));
            },
        };
        if grant.status != TokenGrantStatus::Active {
            return Err("Grant is not active".to_owned());
        }
        let remaining = grant.amount - grant.claimed_amount;
        if remaining == 0 {
            return Err("No credits available to claim from this grant".to_owned());
        }
        proof {
            self.lemma_wf();
        }
        let mut updated = grant;
        updated.claimed_amount = updated.claimed_amount + remaining;
        updated.status = TokenGrantStatus::Completed;
        let _ = self.create_mcp_grant(updated);
        account.token_info.credit_balance = account.token_info.credit_balance + remaining;
        account.updated_at = Some(now);
        let _ = self.upsert_account(account);
        let note = concat_text("MCP grant credit claim for MCP: ", mcp_name);
        self.log_credit(key, remaining, CreditActivityType::Earn, now, note);
        Ok(remaining)
    }

    /// The balances of `principal_id`'s account; refused when it has none.
    pub fn get_account_token_info(&self, principal_id: &str) -> (r: Result<TokenInfo, String>)
        requires
            self.wf(),
        ensures
            self.accounts().contains_key(text_key(principal_id@)) ==> r == Ok::<TokenInfo, String>(
                self.accounts()[text_key(principal_id@)].token_info,
            ),
            !self.accounts().contains_key(text_key(principal_id@)) ==> fails_with(r, "Account not found"@),
    {
        let key = principal_id.to_owned();
        match self.accounts.get(&AccountKey { principal_id: key.clone() }) {
            Some(a) => Ok(a.token_info),
            None => Err("Account not found".to_owned()),
        }
    }

    /// (tokens, staked credits, credits, 0) of `principal_id`, or zeros without an account.
    pub fn get_balance_summary(&self, principal_id: String) -> (r: (u64, u64, u64, u64))
        requires
            self.wf(),
        ensures
            self.accounts().contains_key(text_key(principal_id@)) ==> {
                let t = self.accounts()[text_key(principal_id@)].token_info;
                r == (t.token_balance, t.staked_credits, t.credit_balance, 0u64)
            },
            !self.accounts().contains_key(text_key(principal_id@)) ==> r == (0u64, 0u64, 0u64, 0u64),
    {
        match self.accounts.get(&AccountKey { principal_id: principal_id.clone() }) {
            Some(a) => (a.token_info.token_balance, a.token_info.staked_credits, a.token_info.credit_balance, 0),
            None => (0, 0, 0, 0),
        }
    }

    // ---- activity queries ----

    /// The token activities that involve `principal_id`, oldest first.
    pub fn get_token_activities(&self, principal_id: &str) -> (r: Vec<TokenActivity>)
        ensures
            r@ == self.token_log().filter(|a: TokenActivity| token_involves(a, principal_id@)),
    {
        let ghost pred = |a: TokenActivity| token_involves(a, principal_id@);
        let mut out: Vec<TokenActivity> = Vec::new();
        let n = self.token_activities.len();
        for i in 0..n
            invariant
                n == self.token_activities@.len(),
                pred == (|a: TokenActivity| token_involves(a, principal_id@)),
                out@ == self.token_activities@.take(i as int).filter(pred),
        {
            proof {
                reveal_with_fuel(Seq::<_>::filter, 1);
                assert(self.token_activities@.take(i + 1).drop_last() =~= self.token_activities@.take(i as int));
            }
            let a = &self.token_activities[i];
            if text_equal(a.from.as_str(), principal_id) || text_equal(a.to.as_str(), principal_id) {
                out.push(a.clone());
            }
        }
        assert(self.token_activities@.take(n as int) =~= self.token_activities@);
        out
    }

    /// What `skip(offset).take(limit)` leaves of the token activities of `principal_id`.
    pub fn get_token_activities_paginated(&self, principal_id: &str, offset: u64, limit: usize) -> (r: Vec<TokenActivity>)
        ensures
            r@ == skip_take(
                self.token_log().filter(|a: TokenActivity| token_involves(a, principal_id@)),
                offset as usize as int,
                limit as int,
            ),
    {
        keep_page(self.get_token_activities(principal_id), offset as usize, limit)
    }

    /// The token activities of `principal_id` of kind `activity_type`, oldest first.
    pub fn get_token_activities_by_type(&self, principal_id: &str, activity_type: TokenActivityType) -> (r: Vec<TokenActivity>)
        ensures
            r@ == self.token_log().filter(
                |a: TokenActivity| token_involves(a, principal_id@) && a.activity_type == activity_type,
            ),
    {
        let ghost pred = |a: TokenActivity| token_involves(a, principal_id@) && a.activity_type == activity_type;
        let mut out: Vec<TokenActivity> = Vec::new();
        let n = self.token_activities.len();
        for i in 0..n
            invariant
                n == self.token_activities@.len(),
                pred == (|a: TokenActivity| token_involves(a, principal_id@) && a.activity_type == activity_type),
                out@ == self.token_activities@.take(i as int).filter(pred),
        {
            proof {
                reveal_with_fuel(Seq::<_>::filter, 1);
                assert(self.token_activities@.take(i + 1).drop_last() =~= self.token_activities@.take(i as int));
            }
            let a = &self.token_activities[i];
            if (text_equal(a.from.as_str(), principal_id) || text_equal(a.to.as_str(), principal_id))
                && a.activity_type == activity_type {
                out.push(a.clone());
            }
        }
        assert(self.token_activities@.take(n as int) =~= self.token_activities@);
        out
    }

    /// The token activities of `principal_id` stamped within `[start_time, end_time]`.
    pub fn get_token_activities_by_time_period(&self, principal_id: &str, start_time: u64, end_time: u64) -> (r: Vec<TokenActivity>)
        ensures
            r@ == self.token_log().filter(
                |a: TokenActivity| token_involves(a, principal_id@) && start_time <= a.timestamp <= end_time,
            ),
    {
        let ghost pred = |a: TokenActivity| token_involves(a, principal_id@) && start_time <= a.timestamp <= end_time;
        let mut out: Vec<TokenActivity> = Vec::new();
        let n = self.token_activities.len();
        for i in 0..n
            invariant
                n == self.token_activities@.len(),
                pred == (|a: TokenActivity| token_involves(a, principal_id@) && start_time <= a.timestamp <= end_time),
                out@ == self.token_activities@.take(i as int).filter(pred),
        {
            proof {
                reveal_with_fuel(Seq::<_>::filter, 1);
                assert(self.token_activities@.take(i + 1).drop_last() =~= self.token_activities@.take(i as int));
            }
            let a = &self.token_activities[i];
            if (text_equal(a.from.as_str(), principal_id) || text_equal(a.to.as_str(), principal_id))
                && a.timestamp >= start_time && a.timestamp <= end_time {
                out.push(a.clone());
            }
        }
        assert(self.token_activities@.take(n as int) =~= self.token_activities@);
        out
    }

    /// The credit activities of `principal_id`, oldest first.
    pub fn get_credit_activities(&self, principal_id: &str) -> (r: Vec<CreditActivity>)
        ensures
            r@ == self.credit_log().filter(|a: CreditActivity| credit_of(a, principal_id@)),
    {
        let ghost pred = |a: CreditActivity| credit_of(a, principal_id@);
        let mut out: Vec<CreditActivity> = Vec::new();
        let n = self.credit_activities.len();
        for i in 0..n
            invariant
                n == self.credit_activities@.len(),
                pred == (|a: CreditActivity| credit_of(a, principal_id@)),
                out@ == self.credit_activities@.take(i as int).filter(pred),
        {
            proof {
                reveal_with_fuel(Seq::<_>::filter, 1);
                assert(self.credit_activities@.take(i + 1).drop_last() =~= self.credit_activities@.take(i as int));
            }
            let a = &self.credit_activities[i];
            if text_equal(a.principal_id.as_str(), principal_id) {
                out.push(a.clone());
            }
        }
        assert(self.credit_activities@.take(n as int) =~= self.credit_activities@);
        out
    }

    /// What `skip(offset).take(limit)` leaves of the credit activities of `principal_id`.
    pub fn get_credit_activities_paginated(&self, principal_id: &str, offset: u64, limit: usize) -> (r: Vec<CreditActivity>)
        ensures
            r@ == skip_take(
                self.credit_log().filter(|a: CreditActivity| credit_of(a, principal_id@)),
                offset as usize as int,
                limit as int,
            ),
    {
        keep_page(self.get_credit_activities(principal_id), offset as usize, limit)
    }

    /// The credit activities of `principal_id` of kind `activity_type`, oldest first.
    pub fn get_credit_activities_by_type(&self, principal_id: &str, activity_type: CreditActivityType) -> (r: Vec<CreditActivity>)
        ensures
            r@ == self.credit_log().filter(
                |a: CreditActivity| credit_of(a, principal_id@) && a.activity_type == activity_type,
            ),
    {
        let ghost pred = |a: CreditActivity| credit_of(a, principal_id@) && a.activity_type == activity_type;
        let mut out: Vec<CreditActivity> = Vec::new();
        let n = self.credit_activities.len();
        for i in 0..n
            invariant
                n == self.credit_activities@.len(),
                pred == (|a: CreditActivity| credit_of(a, principal_id@) && a.activity_type == activity_type),
                out@ == self.credit_activities@.take(i as int).filter(pred),
        {
            proof {
                reveal_with_fuel(Seq::<_>::filter, 1);
                assert(self.credit_activities@.take(i + 1).drop_last() =~= self.credit_activities@.take(i as int));
            }
            let a = &self.credit_activities[i];
            if text_equal(a.principal_id.as_str(), principal_id) && a.activity_type == activity_type {
                out.push(a.clone());
            }
        }
        assert(self.credit_activities@.take(n as int) =~= self.credit_activities@);
        out
    }

    /// The credit activities of `principal_id` stamped within `[start_time, end_time]`.
    pub fn get_credit_activities_by_time_period(&self, principal_id: &str, start_time: u64, end_time: u64) -> (r: Vec<CreditActivity>)
        ensures
            r@ == self.credit_log().filter(
                |a: CreditActivity| credit_of(a, principal_id@) && start_time <= a.timestamp <= end_time,
            ),
    {
        let ghost pred = |a: CreditActivity| credit_of(a, principal_id@) && start_time <= a.timestamp <= end_time;
        let mut out: Vec<CreditActivity> = Vec::new();
        let n = self.credit_activities.len();
        for i in 0..n
            invariant
                n == self.credit_activities@.len(),
                pred == (|a: CreditActivity| credit_of(a, principal_id@) && start_time <= a.timestamp <= end_time),
                out@ == self.credit_activities@.take(i as int).filter(pred),
        {
            proof {
                reveal_with_fuel(Seq::<_>::filter, 1);
                assert(self.credit_activities@.take(i + 1).drop_last() =~= self.credit_activities@.take(i as int));
            }
            let a = &self.credit_activities[i];
            if text_equal(a.principal_id.as_str(), principal_id) && a.timestamp >= start_time && a.timestamp
                <= end_time {
                out.push(a.clone());
            }
        }
        assert(self.credit_activities@.take(n as int) =~= self.credit_activities@);
        out
    }

    /// (count, total amount, completed count) of the token activities of `principal_id`.
    pub fn get_token_activity_statistics(&self, principal_id: &str) -> (r: (u64, u64, u64))
        requires
            token_amounts(self.token_log().filter(|a: TokenActivity| token_involves(a, principal_id@)))
                <= u64::MAX,
        ensures
            ({
                let s = self.token_log().filter(|a: TokenActivity| token_involves(a, principal_id@));
                r == (
                    s.len() as u64,
                    token_amounts(s) as u64,
                    s.filter(|a: TokenActivity| a.status == TransferStatus::Completed).len() as u64,
                )
            }),
    {
        let acts = self.get_token_activities(principal_id);
        let ghost done = |a: TokenActivity| a.status == TransferStatus::Completed;
        let n = acts.len();
        let mut total: u64 = 0;
        let mut ok: u64 = 0;
        for i in 0..n
            invariant
                n == acts@.len(),
                token_amounts(acts@) <= u64::MAX,
                done == (|a: TokenActivity| a.status == TransferStatus::Completed),
                total == token_amounts(acts@.take(i as int)),
                ok == acts@.take(i as int).filter(done).len(),
                ok <= i,
        {
            proof {
                reveal_with_fuel(Seq::<_>::filter, 1);
                assert(acts@.take(i + 1).drop_last() =~= acts@.take(i as int));
                lemma_token_amounts_prefix(acts@, i + 1);
            }
            total = total + acts[i].amount;
            if acts[i].status == TransferStatus::Completed {
                ok = ok + 1;
            }
        }
        assert(acts@.take(n as int) =~= acts@);
        (n as u64, total, ok)
    }

    /// (count, total amount, completed count) of the credit activities of `principal_id`.
    pub fn get_credit_activity_statistics(&self, principal_id: &str) -> (r: (u64, u64, u64))
        requires
            credit_amounts(self.credit_log().filter(|a: CreditActivity| credit_of(a, principal_id@)))
                <= u64::MAX,
        ensures
            ({
                let s = self.credit_log().filter(|a: CreditActivity| credit_of(a, principal_id@));
                r == (
                    s.len() as u64,
                    credit_amounts(s) as u64,
                    s.filter(|a: CreditActivity| a.status == TransferStatus::Completed).len() as u64,
                )
            }),
    {
        let acts = self.get_credit_activities(principal_id);
        let ghost done = |a: CreditActivity| a.status == TransferStatus::Completed;
        let n = acts.len();
        let mut total: u64 = 0;
        let mut ok: u64 = 0;
        for i in 0..n
            invariant
                n == acts@.len(),
                credit_amounts(acts@) <= u64::MAX,
                done == (|a: CreditActivity| a.status == TransferStatus::Completed),
                total == credit_amounts(acts@.take(i as int)),
                ok == acts@.take(i as int).filter(done).len(),
                ok <= i,
        {
            proof {
                reveal_with_fuel(Seq::<_>::filter, 1);
                assert(acts@.take(i + 1).drop_last() =~= acts@.take(i as int));
                lemma_credit_amounts_prefix(acts@, i + 1);
            }
            total = total + acts[i].amount;
            if acts[i].status == TransferStatus::Completed {
                ok = ok + 1;
            }
        }
        assert(acts@.take(n as int) =~= acts@);
        (n as u64, total, ok)
    }

    // ---- policies and the recharge account ----

    /// Sets `grant_policy` for its action, or, when none is given, the defaults:
    /// 1000 credits for a new user and 10000 for a new MCP, claimable once.
    pub fn init_grant_policy(&mut self, grant_policy: Option<GrantPolicy>)
        requires
            old(self).wf(),
        ensures
            final(self).wf(),
            final(self).accounts() == old(self).accounts(),
            final(self).grants() == old(self).grants(),
            final(self).mcp_grants() == old(self).mcp_grants(),
            final(self).token_log() == old(self).token_log(),
            final(self).credit_log() == old(self).credit_log(),
            final(self).recharge() == old(self).recharge(),
            grant_policy matches Some(p) ==> {
                &&& p.grant_action == GrantAction::NewUser ==> final(self).new_user_policy() == Some(p)
                    && final(self).new_mcp_policy() == old(self).new_mcp_policy()
                &&& p.grant_action == GrantAction::NewMcp ==> final(self).new_mcp_policy() == Some(p)
                    && final(self).new_user_policy() == old(self).new_user_policy()
            },
            grant_policy is None ==> {
                &&& final(self).new_user_policy() == Some(
                    GrantPolicy { grant_amount: NEW_USER_GRANT_AMOUNT, grant_action: GrantAction::NewUser, grant_duration: 0 },
                )
                &&& final(self).new_mcp_policy() == Some(
                    GrantPolicy { grant_amount: NEW_MCP_GRANT_AMOUNT, grant_action: GrantAction::NewMcp, grant_duration: 0 },
                )
            },
    {
        match grant_policy {
            Some(p) => match p.grant_action {
                GrantAction::NewUser => {
                    self.new_user_policy = Some(p);
                },
                GrantAction::NewMcp => {
                    self.new_mcp_policy = Some(p);
                },
            },
            None => {
                self.new_user_policy = Some(
                    GrantPolicy { grant_amount: NEW_USER_GRANT_AMOUNT, grant_action: GrantAction::NewUser, grant_duration: 0 },
                );
                self.new_mcp_policy = Some(
                    GrantPolicy { grant_amount: NEW_MCP_GRANT_AMOUNT, grant_action: GrantAction::NewMcp, grant_duration: 0 },
                );
            },
        }
    }

    /// Makes `item` the one recharge account.
    pub fn add_recharge_principal_account(&mut self, item: RechargePrincipalAccount) -> (r: Result<(), String>)
        requires
            old(self).wf(),
        ensures
            final(self).wf(),
            r is Ok,
            final(self).recharge() == Some(item),
            final(self).accounts() == old(self).accounts(),
            final(self).grants() == old(self).grants(),
            final(self).mcp_grants() == old(self).mcp_grants(),
            final(self).token_log() == old(self).token_log(),
            final(self).credit_log() == old(self).credit_log(),
    {
        self.recharge_principal = Some(item);
        Ok(())
    }

    /// The recharge account.
    pub fn get_recharge_principal_account(&self) -> (r: Option<RechargePrincipalAccount>)
        ensures
            r == self.recharge(),
    {
        match &self.recharge_principal {
            Some(a) => Some(a.clone()),
            None => None,
        }
    }

    /// Replaces the recharge account; there must be one.
    pub fn update_recharge_principal_account(&mut self, item: RechargePrincipalAccount) -> (r: Result<(), String>)
        requires
            old(self).wf(),
            old(self).recharge() is Some,
        ensures
            final(self).wf(),
            r is Ok,
            final(self).recharge() == Some(item),
            final(self).accounts() == old(self).accounts(),
            final(self).grants() == old(self).grants(),
            final(self).mcp_grants() == old(self).mcp_grants(),
            final(self).token_log() == old(self).token_log(),
            final(self).credit_log() == old(self).credit_log(),
    {
        self.recharge_principal = Some(item);
        Ok(())
    }

    /// Removes the recharge account; refused when there is none.
    pub fn delete_recharge_principal_account(&mut self) -> (r: Result<(), String>)
        requires
            old(self).wf(),
        ensures
            final(self).wf(),
            r is Ok == old(self).recharge() is Some,
            r matches Err(e) ==> e@ == "No principal account mapping exists to delete"@,
            final(self).recharge() is None,
            final(self).accounts() == old(self).accounts(),
            final(self).grants() == old(self).grants(),
            final(self).mcp_grants() == old(self).mcp_grants(),
            final(self).token_log() == old(self).token_log(),
            final(self).credit_log() == old(self).credit_log(),
    {
        if self.recharge_principal.is_some() {
            self.recharge_principal = None;
            Ok(())
        } else {
            Err("No principal account mapping exists to delete".to_string())
        }
    }

    /// The recharge account as a list of at most one.
    pub fn list_recharge_principal_accounts(&self) -> (r: Vec<RechargePrincipalAccount>)
        ensures
            r@ == (match self.recharge() {
                Some(a) => seq![a],
                None => Seq::<RechargePrincipalAccount>::empty(),
            }),
    {
        let mut out: Vec<RechargePrincipalAccount> = Vec::new();
        match &self.recharge_principal {
            Some(a) => {
                out.push(a.clone());
                assert(out@ =~= seq![*a]);
            },
            None => {},
        }
        out
    }
}

proof fn lemma_token_amounts_prefix(s: Seq<TokenActivity>, i: int)
    requires
        0 <= i <= s.len(),
    ensures
        token_amounts(s.take(i)) <= token_amounts(s),
    decreases s.len() - i,
{
    if i < s.len() {
        lemma_token_amounts_prefix(s, i + 1);
        assert(s.take(i + 1).drop_last() =~= s.take(i));
    } else {
        assert(s.take(i) =~= s);
    }
}

proof fn lemma_credit_amounts_prefix(s: Seq<CreditActivity>, i: int)
    requires
        0 <= i <= s.len(),
    ensures
        credit_amounts(s.take(i)) <= credit_amounts(s),
    decreases s.len() - i,
{
    if i < s.len() {
        lemma_credit_amounts_prefix(s, i + 1);
        assert(s.take(i + 1).drop_last() =~= s.take(i));
    } else {
        assert(s.take(i) =~= s);
    }
}

/// Whether a claim of the grant of `p` for MCP `m` is refused.
pub open spec fn mcp_claim_refused(accounts: Map<KeyFields, AccountInfo>, grants: Map<KeyFields, NewMcpGrant>, p: Seq<char>, m: Seq<char>) -> bool {
    let gk = grant_key(p, m);
    ||| !accounts.contains_key(text_key(p))
    ||| !grants.contains_key(gk)
    ||| grants[gk].status != TokenGrantStatus::Active
    ||| grants[gk].amount == grants[gk].claimed_amount
}

proof fn lemma_unclaimed_bound(s: Seq<NewMcpGrant>, p: Seq<char>, i: int)
    requires
        0 <= i <= s.len(),
        forall|j: int| 0 <= j < s.len() && active_grant_of(#[trigger] s[j], p) ==> s[j].claimed_amount
            <= s[j].amount,
    ensures
        0 <= unclaimed_total(s.take(i), p) <= unclaimed_total(s, p),
    decreases s.len() - i,
{
    lemma_unclaimed_nonneg(s.take(i), p);
    if i < s.len() {
        lemma_unclaimed_bound(s, p, i + 1);
        assert(s.take(i + 1).drop_last() =~= s.take(i));
    } else {
        assert(s.take(i) =~= s);
    }
}

proof fn lemma_unclaimed_positive(s: Seq<NewMcpGrant>, p: Seq<char>, q: int)
    requires
        0 <= q < s.len(),
        claimable_mcp_grant(s[q], p),
        forall|j: int| 0 <= j < s.len() && active_grant_of(#[trigger] s[j], p) ==> s[j].claimed_amount
            <= s[j].amount,
    ensures
        unclaimed_total(s, p) > 0,
    decreases s.len(),
{
    assert forall|j: int| 0 <= j < s.drop_last().len() && active_grant_of(#[trigger] s.drop_last()[j], p)
        implies s.drop_last()[j].claimed_amount <= s.drop_last()[j].amount by {
        assert(s.drop_last()[j] == s[j]);
    }
    lemma_unclaimed_nonneg(s.drop_last(), p);
    if q < s.len() - 1 {
        assert(s.drop_last()[q] == s[q]);
        lemma_unclaimed_positive(s.drop_last(), p, q);
    }
}

proof fn lemma_unclaimed_nonneg(s: Seq<NewMcpGrant>, p: Seq<char>)
    requires
        forall|j: int| 0 <= j < s.len() && active_grant_of(#[trigger] s[j], p) ==> s[j].claimed_amount
            <= s[j].amount,
    ensures
        unclaimed_total(s, p) >= 0,
    decreases s.len(),
{
    if s.len() > 0 {
        assert forall|j: int| 0 <= j < s.drop_last().len() && active_grant_of(#[trigger] s.drop_last()[j], p)
            implies s.drop_last()[j].claimed_amount <= s.drop_last()[j].amount by {
            assert(s.drop_last()[j] == s[j]);
        }
        lemma_unclaimed_nonneg(s.drop_last(), p);
    }
}

/// Whether `r` is the refusal with message `m`.
pub open spec fn fails_with<T>(r: Result<T, String>, m: Seq<char>) -> bool {
    r matches Err(e) && e@ == m
}

/// Whether a claim of the new-user grant of `p` at `now` is refused.
pub open spec fn claim_refused(accounts: Map<KeyFields, AccountInfo>, grants: Map<KeyFields, TokenGrant>, p: Seq<char>, now: u64) -> bool {
    let k = text_key(p);
    ||| !accounts.contains_key(k)
    ||| !grants.contains_key(k)
    ||| now < grants[k].start_time
    ||| grants[k].amount == grants[k].claimed_amount
}

/// What claiming the new-user grant of `p` at `now` does, from `s0` to `s1` with
/// answer `r`: refused (nothing changes) without an account, without a grant,
/// before the grant starts or with nothing left; otherwise what is left goes to
/// the account, the grant is marked fully claimed and active, and the claim is
/// logged.
pub open spec fn grant_claim_outcome(s0: TokenStore, s1: TokenStore, p: Seq<char>, now: u64, r: Result<u64, String>) -> bool {
    let k = text_key(p);
    if claim_refused(s0.accounts(), s0.grants(), p, now) {
        &&& r is Err
        &&& s1.accounts() == s0.accounts()
        &&& s1.grants() == s0.grants()
        &&& s1.credit_log() == s0.credit_log()
    } else {
        let g = s0.grants()[k];
        let a = s0.accounts()[k];
        let left = (g.amount - g.claimed_amount) as u64;
        &&& r == Ok::<u64, String>(left)
        &&& s1.grants() == s0.grants().insert(k, TokenGrant { claimed_amount: g.amount, status: TokenGrantStatus::Active, ..g })
        &&& s1.accounts() == s0.accounts().insert(
            k,
            rebalanced(a, a.token_info.token_balance, (a.token_info.credit_balance + left) as u64, a.token_info.staked_credits, now),
        )
        &&& s1.credit_log().drop_last() == s0.credit_log()
        &&& is_credit_event(s1.credit_log().last(), p, left, CreditActivityType::Earn, now, "Grant credit claim"@)
    }
}

/// What claiming the grant of `p` for the MCP `m` at `now` does, from `s0` to
/// `s1` with answer `r`: refused (nothing changes) without an account, without
/// that grant, when it is not active or when nothing is left; otherwise what is
/// left goes to the account, the grant is completed, and the claim is logged.
pub open spec fn mcp_claim_outcome(s0: TokenStore, s1: TokenStore, p: Seq<char>, m: Seq<char>, now: u64, r: Result<u64, String>) -> bool {
    let gk = grant_key(p, m);
    let k = text_key(p);
    if mcp_claim_refused(s0.accounts(), s0.mcp_grants(), p, m) {
        &&& r is Err
        &&& s1.accounts() == s0.accounts()
        &&& s1.mcp_grants() == s0.mcp_grants()
        &&& s1.credit_log() == s0.credit_log()
    } else {
        let g = s0.mcp_grants()[gk];
        let a = s0.accounts()[k];
        let left = (g.amount - g.claimed_amount) as u64;
        &&& r == Ok::<u64, String>(left)
        &&& s1.mcp_grants() == s0.mcp_grants().insert(gk, completed_grant(g))
        &&& s1.accounts() == s0.accounts().insert(
            k,
            rebalanced(a, a.token_info.token_balance, (a.token_info.credit_balance + left) as u64, a.token_info.staked_credits, now),
        )
        &&& s1.credit_log().drop_last() == s0.credit_log()
        &&& is_credit_event(s1.credit_log().last(), p, left, CreditActivityType::Earn, now, "MCP grant credit claim for MCP: "@ + m)
    }
}

/// The note of a credit spending: `Credit usage for service: {service} - {metadata}`.
pub open spec fn usage_note(service: Seq<char>, metadata: Option<String>) -> Seq<char> {
    "Credit usage for service: "@ + service + " - "@ + match metadata {
        Some(m) => m@,
        None => Seq::<char>::empty(),
    }
}

fn usage_text(service: &String, metadata: Option<String>) -> (r: String)
    ensures
        r@ == usage_note(service@, metadata),
{
    let head = concat3("Credit usage for service: ", service.as_str(), " - ");
    match metadata {
        Some(m) => concat_text(head.as_str(), m.as_str()),
        None => {
            let r = concat_text(head.as_str(), "");
            proof {
                reveal_strlit("");
            }
            assert(r@ =~= head@);
            r
        },
    }
}

/// The name a grant status is shown by.
pub open spec fn grant_status_name(s: TokenGrantStatus) -> Seq<char> {
    match s {
        TokenGrantStatus::Pending => "Pending"@,
        TokenGrantStatus::Active => "Active"@,
        TokenGrantStatus::Completed => "Completed"@,
        TokenGrantStatus::Cancelled => "Cancelled"@,
    }
}

fn grant_status_text(s: TokenGrantStatus) -> (r: &'static str)
    ensures
        r@ == grant_status_name(s),
{
    match s {
        TokenGrantStatus::Pending => "Pending",
        TokenGrantStatus::Active => "Active",
        TokenGrantStatus::Completed => "Completed",
        TokenGrantStatus::Cancelled => "Cancelled",
    }
}

/// The grant that a new user `p` gets at `now` (in nanoseconds).
pub open spec fn new_user_grant(p: String, now: u64) -> TokenGrant {
    TokenGrant {
        recipient: p,
        amount: NEW_USER_GRANT_AMOUNT,
        start_time: now / 1000000,
        claimed_amount: 0,
        status: TokenGrantStatus::Active,
    }
}

/// The grant that `p` gets for a new MCP `m` at `now` (in nanoseconds).
pub open spec fn new_mcp_grant(p: String, m: String, now: u64) -> NewMcpGrant {
    NewMcpGrant {
        recipient: p,
        amount: NEW_MCP_GRANT_AMOUNT,
        start_time: now / 10000,
        claimed_amount: 0,
        mcp_name: m,
        status: TokenGrantStatus::Active,
    }
}

impl TokenStore {
    /// Claims the new-user grant of `principal_id`: an active grant is claimed, a
    /// grant in another state is refused, and a user without a grant first gets
    /// one of `NEW_USER_GRANT_AMOUNT` credits, which is then claimed.
    pub fn create_and_claim_newuser_grant(&mut self, principal_id: String, now: u64) -> (r: Result<u64, String>)
        requires
            old(self).wf(),
            old(self).grants().contains_key(text_key(principal_id@)) ==> old(self).grants()[text_key(
                principal_id@,
            )].claimed_amount <= old(self).grants()[text_key(principal_id@)].amount,
            old(self).grants().contains_key(text_key(principal_id@)) && old(self).accounts().contains_key(
                text_key(principal_id@),
            ) ==> old(self).accounts()[text_key(principal_id@)].token_info.credit_balance + (old(
                self,
            ).grants()[text_key(principal_id@)].amount - old(self).grants()[text_key(
                principal_id@,
            )].claimed_amount) <= u64::MAX,
            !old(self).grants().contains_key(text_key(principal_id@)) && old(self).accounts().contains_key(
                text_key(principal_id@),
            ) ==> old(self).accounts()[text_key(principal_id@)].token_info.credit_balance + NEW_USER_GRANT_AMOUNT
                <= u64::MAX,
        ensures
            final(self).wf(),
            final(self).mcp_grants() == old(self).mcp_grants(),
            final(self).token_log() == old(self).token_log(),
            old(self).grants().contains_key(text_key(principal_id@)) ==> {
                let g = old(self).grants()[text_key(principal_id@)];
                if g.status == TokenGrantStatus::Active {
                    grant_claim_outcome(*old(self), *final(self), principal_id@, now, r)
                } else {
                    &&& r matches Err(e) && e@ == "Grant exists but is not active. Current status: "@ + grant_status_name(
                        g.status,
                    )
                    &&& final(self).accounts() == old(self).accounts()
                    &&& final(self).grants() == old(self).grants()
                    &&& final(self).credit_log() == old(self).credit_log()
                }
            },
            !old(self).grants().contains_key(text_key(principal_id@)) ==> exists|mid: TokenStore|
                {
                    &&& mid.grants() == old(self).grants().insert(text_key(principal_id@), new_user_grant(principal_id, now))
                    &&& mid.accounts() == old(self).accounts()
                    &&& mid.credit_log() == old(self).credit_log()
                    &&& grant_claim_outcome(mid, *final(self), principal_id@, now, r)
                },
    {
        match self.get_token_grant(principal_id.as_str()) {
            Some(g) => {
                if g.status == TokenGrantStatus::Active {
                    self.claim_grant(principal_id.as_str(), now)
                } else {
                    let m = concat_text("Grant exists but is not active. Current status: ", grant_status_text(g.status));
                    Err(m)
                }
            },
            None => {
                let grant = TokenGrant {
                    recipient: principal_id.clone(),
                    amount: NEW_USER_GRANT_AMOUNT,
                    start_time: now / 1000000,
                    claimed_amount: 0,
                    status: TokenGrantStatus::Active,
                };
                let _ = self.create_token_grant(grant);
                let ghost mid = *self;
                let r = self.claim_grant(principal_id.as_str(), now);
                proof {
                    assert(grant_claim_outcome(mid, *self, principal_id@, now, r));
                }
                r
            },
        }
    }

    /// Gives `principal_id` a grant of `NEW_MCP_GRANT_AMOUNT` credits for the new MCP
    /// `mcp_name` (replacing one it had) and claims it.
    pub fn create_and_claim_newmcp_grant(&mut self, principal_id: String, mcp_name: String, now: u64) -> (r: Result<u64, String>)
        requires
            old(self).wf(),
            old(self).accounts().contains_key(text_key(principal_id@)) ==> old(self).accounts()[text_key(
                principal_id@,
            )].token_info.credit_balance + NEW_MCP_GRANT_AMOUNT <= u64::MAX,
        ensures
            final(self).wf(),
            final(self).grants() == old(self).grants(),
            final(self).token_log() == old(self).token_log(),
            exists|mid: TokenStore|
                {
                    &&& mid.mcp_grants() == old(self).mcp_grants().insert(
                        grant_key(principal_id@, mcp_name@),
                        new_mcp_grant(principal_id, mcp_name, now),
                    )
                    &&& mid.accounts() == old(self).accounts()
                    &&& mid.credit_log() == old(self).credit_log()
                    &&& mcp_claim_outcome(mid, *final(self), principal_id@, mcp_name@, now, r)
                },
    {
        let grant = NewMcpGrant {
            recipient: principal_id.clone(),
            amount: NEW_MCP_GRANT_AMOUNT,
            start_time: now / 10000,
            claimed_amount: 0,
            mcp_name: mcp_name.clone(),
            status: TokenGrantStatus::Active,
        };
        let _ = self.create_mcp_grant(grant);
        let ghost mid = *self;
        let r = self.claim_mcp_grant_with_mcpname(principal_id.as_str(), mcp_name.as_str(), now);
        proof {
            assert(mcp_claim_outcome(mid, *self, principal_id@, mcp_name@, now, r));
        }
        r
    }
}

} // verus!
