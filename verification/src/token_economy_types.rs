//! The records of the token economy: accounts, grants, activities and policies.
use vstd::prelude::*;
use crate::text::{clone_opt_text, Rank};
use crate::sorted_map::{MapKey, KeyFields, pair_key, rank_pair};

verus! {

pub const AIO_MINING_POOL_ID: &'static str = "cmx4w-ltfgv-strkj-zbcjj-ulg3p-e2rsl-haeth-le6mq-47xa4-reygn-iqe";

pub const TOKEN_LEDGER_CANISTER_ID: &'static str = "mxzaz-hqaaa-aaaar-qaada-cai";

/// The IEEE-754 bits of the kappa multiplier 1.0 that a new account starts with.
pub const BASE_KAPPA_BITS: u64 = 4607182418800017408u64;

#[derive(PartialEq, Eq, Structural, Clone, Copy, Debug)]
pub enum TokenActivityType {
    Transfer,
    Stack,
    Unstack,
    Claim,
    Grant,
    Vest,
}

#[derive(PartialEq, Eq, Structural, Clone, Copy, Debug)]
pub enum TransferStatus {
    Pending,
    Completed,
    Failed,
}

#[derive(Debug)]
pub struct TokenActivity {
    pub timestamp: u64,
    pub from: String,
    pub to: String,
    pub amount: u64,
    pub activity_type: TokenActivityType,
    pub status: TransferStatus,
    pub metadata: Option<String>,
}

impl Clone for TokenActivity {
    fn clone(&self) -> (r: Self)
        ensures
            r == *self,
    {
        TokenActivity {
            timestamp: self.timestamp,
            from: self.from.clone(),
            to: self.to.clone(),
            amount: self.amount,
            activity_type: self.activity_type,
            status: self.status,
            metadata: clone_opt_text(&self.metadata),
        }
    }
}

#[derive(PartialEq, Eq, Structural, Clone, Copy, Debug)]
pub enum CreditActivityType {
    Earn,
    Spend,
    Stack,
    Unstack,
    Reward,
}

#[derive(Debug)]
pub struct CreditActivity {
    pub timestamp: u64,
    pub principal_id: String,
    pub amount: u64,
    pub activity_type: CreditActivityType,
    pub status: TransferStatus,
    pub metadata: Option<String>,
}

impl Clone for CreditActivity {
    fn clone(&self) -> (r: Self)
        ensures
            r == *self,
    {
        CreditActivity {
            timestamp: self.timestamp,
            principal_id: self.principal_id.clone(),
            amount: self.amount,
            activity_type: self.activity_type,
            status: self.status,
            metadata: clone_opt_text(&self.metadata),
        }
    }
}

#[derive(PartialEq, Eq, Structural, Clone, Copy, Debug, Hash)]
pub enum SubscriptionPlan {
    Free,
    Basic,
    Premium,
    Enterprise,
}

#[derive(PartialEq, Eq, Structural, Clone, Copy, Debug)]
pub enum GrantAction {
    NewUser,
    NewMcp,
}

#[derive(PartialEq, Eq, Structural, Clone, Copy, Debug)]
pub struct GrantPolicy {
    pub grant_amount: u64,
    pub grant_action: GrantAction,
    pub grant_duration: u64,
}

#[derive(PartialEq, Eq, Structural, Clone, Copy, Debug)]
pub enum TokenGrantStatus {
    Pending,
    Active,
    Completed,
    Cancelled,
}

#[derive(Debug)]
pub struct TokenGrant {
    pub recipient: String,
    pub amount: u64,
    pub start_time: u64,
    pub claimed_amount: u64,
    pub status: TokenGrantStatus,
}

impl Clone for TokenGrant {
    fn clone(&self) -> (r: Self)
        ensures
            r == *self,
    {
        TokenGrant {
            recipient: self.recipient.clone(),
            amount: self.amount,
            start_time: self.start_time,
            claimed_amount: self.claimed_amount,
            status: self.status,
        }
    }
}

#[derive(Debug)]
pub struct NewMcpGrant {
    pub recipient: String,
    pub amount: u64,
    pub start_time: u64,
    pub claimed_amount: u64,
    pub mcp_name: String,
    pub status: TokenGrantStatus,
}

impl Clone for NewMcpGrant {
    fn clone(&self) -> (r: Self)
        ensures
            r == *self,
    {
        NewMcpGrant {
            recipient: self.recipient.clone(),
            amount: self.amount,
            start_time: self.start_time,
            claimed_amount: self.claimed_amount,
            mcp_name: self.mcp_name.clone(),
            status: self.status,
        }
    }
}

/// The key of an MCP grant: ordered by recipient, then by MCP name.
#[derive(Debug)]
pub struct NewMcpGrantKey {
    pub recipient: String,
    pub mcp_name: String,
}

/// The key of the grant of `recipient` for MCP `mcp_name`.
pub open spec fn grant_key(recipient: Seq<char>, mcp_name: Seq<char>) -> KeyFields {
    pair_key(recipient, mcp_name)
}

impl MapKey for NewMcpGrantKey {
    open spec fn key_fields(&self) -> KeyFields {
        grant_key(self.recipient@, self.mcp_name@)
    }

    fn rank_key(&self, other: &Self) -> (r: Rank) {
        rank_pair(self.recipient.as_str(), self.mcp_name.as_str(), other.recipient.as_str(), other.mcp_name.as_str())
    }
}

/// Balances of an account. The kappa multiplier is kept as the IEEE-754 bits of
/// the `f64` that the canister stores; nothing here computes with it.
#[derive(PartialEq, Eq, Structural, Clone, Copy, Debug)]
pub struct TokenInfo {
    pub token_balance: u64,
    pub credit_balance: u64,
    pub staked_credits: u64,
    pub kappa_multiplier_bits: u64,
}

#[derive(Debug)]
pub struct AccountInfo {
    pub principal_id: String,
    pub token_info: TokenInfo,
    pub created_at: u64,
    pub updated_at: Option<u64>,
    pub metadata: Option<String>,
}

impl Clone for AccountInfo {
    fn clone(&self) -> (r: Self)
        ensures
            r == *self,
    {
        AccountInfo {
            principal_id: self.principal_id.clone(),
            token_info: self.token_info,
            created_at: self.created_at,
            updated_at: self.updated_at,
            metadata: clone_opt_text(&self.metadata),
        }
    }
}

impl AccountInfo {
    /// No subscription plan is stored with an account.
    pub fn get_subscription_plan(&self) -> (r: Option<SubscriptionPlan>)
        ensures
            r is None,
    {
        None
    }

    pub fn get_staked_credits(&self) -> (r: u64)
        ensures
            r == self.token_info.staked_credits,
    {
        self.token_info.staked_credits
    }

    pub fn get_token_balance(&self) -> (r: u64)
        ensures
            r == self.token_info.token_balance,
    {
        self.token_info.token_balance
    }

    pub fn get_credit_balance(&self) -> (r: u64)
        ensures
            r == self.token_info.credit_balance,
    {
        self.token_info.credit_balance
    }

    /// The bits of the kappa multiplier.
    pub fn get_kappa_multiplier_bits(&self) -> (r: u64)
        ensures
            r == self.token_info.kappa_multiplier_bits,
    {
        self.token_info.kappa_multiplier_bits
    }

    /// A fresh account of `principal_id`, created at `now`: no balances, kappa 1.0.
    pub fn new(principal_id: String, now: u64) -> (r: Self)
        ensures
            r == fresh_account(principal_id, now),
    {
        AccountInfo {
            principal_id,
            token_info: TokenInfo {
                token_balance: 0,
                credit_balance: 0,
                staked_credits: 0,
                kappa_multiplier_bits: BASE_KAPPA_BITS,
            },
            created_at: now,
            updated_at: None,
            metadata: None,
        }
    }
}

/// A fresh account.
pub open spec fn fresh_account(principal_id: String, now: u64) -> AccountInfo {
    AccountInfo {
        principal_id,
        token_info: TokenInfo {
            token_balance: 0,
            credit_balance: 0,
            staked_credits: 0,
            kappa_multiplier_bits: BASE_KAPPA_BITS,
        },
        created_at: now,
        updated_at: None,
        metadata: None,
    }
}

/// The key of a new-user grant.
#[derive(Debug)]
pub struct TokenGrantKey {
    pub recipient: String,
}

#[derive(Debug)]
pub struct CallItem {
    pub id: u64,
    pub protocol: String,
    pub agent: String,
    pub call_type: String,
    pub method: String,
    pub inputs: Vec<IOData>,
    pub outputs: Vec<IOData>,
    pub status: String,
}

#[derive(Debug)]
pub struct IOData {
    pub data_type: String,
    pub value: String,
}

#[derive(PartialEq, Eq, Structural, Clone, Copy, Debug)]
pub struct QuarterRewardConfig {
    pub quarter: u32,
    pub base_reward: u64,
    pub estimated_calls: u64,
    pub total_quarter_emission: u64,
}

#[derive(Debug)]
pub struct RewardIdList(pub Vec<u64>);

#[derive(Debug)]
pub struct RechargePrincipalAccount {
    pub principal_id: String,
    pub subaccount_id: Option<String>,
}

impl Clone for RechargePrincipalAccount {
    fn clone(&self) -> (r: Self)
        ensures
            r == *self,
    {
        RechargePrincipalAccount {
            principal_id: self.principal_id.clone(),
            subaccount_id: clone_opt_text(&self.subaccount_id),
        }
    }
}

} // verus!
