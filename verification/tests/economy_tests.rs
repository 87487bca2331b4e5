use aio_base_backend::mcp_asset_types::{check_mcp_item, McpItem, McpStore};
use aio_base_backend::token_economy::{TokenStore, MIN_STAKE_AMOUNT, NEW_MCP_GRANT_AMOUNT, NEW_USER_GRANT_AMOUNT};
use aio_base_backend::token_economy_types::{TokenGrant, TokenGrantStatus};
use aio_base_backend::agent_asset_types::{AgentItem, AgentStore, Platform};

fn mcp(name: &str) -> McpItem {
    McpItem {
        id: 0,
        name: name.to_string(),
        description: "A memory server".to_string(),
        author: "Ada".to_string(),
        owner: "".to_string(),
        git_repo: "https://github.com/ada/mem".to_string(),
        exec_file: None,
        homepage: None,
        remote_endpoint: None,
        mcp_type: "stdio".to_string(),
        community_body: None,
        resources: false,
        prompts: false,
        tools: true,
        sampling: false,
    }
}

fn agent(name: &str, owner: &str) -> AgentItem {
    AgentItem {
        id: 99,
        name: name.to_string(),
        description: "d".to_string(),
        author: "a".to_string(),
        owner: owner.to_string(),
        platform: Some(Platform::Linux),
        git_repo: "g".to_string(),
        homepage: None,
        input_params: None,
        output_example: None,
        image_url: None,
        exec_file_url: None,
        version: "1".to_string(),
    }
}

#[test]
fn agents_are_numbered_by_position_and_names_are_unique() {
    let mut store = AgentStore::new();
    assert_eq!(store.add_agent_item(agent("a1", "o1")), Ok(0));
    assert_eq!(store.add_agent_item(agent("a2", "o2")), Ok(1));
    assert_eq!(store.add_agent_item(agent("a1", "o3")).unwrap_err(), "Agent with name 'a1' already exists");
    assert_eq!(store.get_agent_item(1).unwrap().id, 1);
    assert!(store.get_agent_item(2).is_none());
    assert_eq!(store.get_user_agent_items("o2".to_string()).len(), 1);
    assert_eq!(store.get_agent_item_by_name("a2".to_string()).unwrap().owner, "o2");
    assert_eq!(store.update_agent_item(0, agent("a1x", "someone")).unwrap_err(), "Only the owner can update this item");
    assert_eq!(store.update_agent_item(5, agent("a1x", "o1")).unwrap_err(), "Index out of bounds");
    assert!(store.update_agent_item(0, agent("a1x", "o1")).is_ok());
    assert_eq!(store.get_agent_items_paginated(1, 5).len(), 1);
    assert_eq!(store.get_all_agent_items().len(), 2);
}

#[test]
fn mcp_checks_report_the_first_problem() {
    assert_eq!(check_mcp_item(&mcp("m")), None);
    let mut bad = mcp("m");
    bad.mcp_type = "ftp".to_string();
    assert_eq!(check_mcp_item(&bad), Some("Invalid MCP type. Must be one of: stdio, http, sse".to_string()));
    let mut bad = mcp("  ");
    bad.description = "".to_string();
    assert_eq!(check_mcp_item(&bad), Some("MCP name cannot be empty".to_string()));
    let mut bad = mcp("m");
    bad.git_repo = "ftp://x".to_string();
    assert_eq!(check_mcp_item(&bad), Some("Git repository must be a valid HTTP(S) URL".to_string()));
}

#[test]
fn staking_moves_credits_and_unstaking_gives_them_back() {
    let mut tokens = TokenStore::new();
    let mut mcps = McpStore::new();
    tokens.create_account("p1".to_string(), 10).unwrap();
    assert!(mcps.add_mcp_item(mcp("mem"), "p1".to_string()).is_ok());
    let grant = TokenGrant {
        recipient: "p1".to_string(),
        amount: 500,
        start_time: 0,
        claimed_amount: 0,
        status: TokenGrantStatus::Active,
    };
    tokens.create_token_grant(grant).unwrap();
    assert_eq!(tokens.claim_grant("p1", 20), Ok(500));
    assert!(tokens.claim_grant("p1", 21).is_err());
    assert!(tokens.stack_credits(&mut mcps, "p1".to_string(), "mem".to_string(), MIN_STAKE_AMOUNT - 1, 30).is_err());
    let a = tokens.stack_credits(&mut mcps, "p1".to_string(), "mem".to_string(), 200, 30).unwrap();
    assert_eq!(a.token_info.credit_balance, 300);
    assert_eq!(a.token_info.staked_credits, 200);
    assert_eq!(mcps.get_total_stacked_credits(), 200);
    let b = tokens.unstack_credits("p1".to_string(), 200, 40).unwrap();
    assert_eq!(b.token_info.credit_balance, 500);
    assert_eq!(b.token_info.staked_credits, 0);
    assert!(tokens.unstack_credits("p1".to_string(), 1, 41).is_err());
}

#[test]
fn transfers_keep_the_sum_of_two_balances() {
    let mut tokens = TokenStore::new();
    tokens.create_account("a".to_string(), 1).unwrap();
    tokens.create_account("b".to_string(), 1).unwrap();
    tokens.update_account_balance("a".to_string(), 70, 0, 2).unwrap();
    tokens.update_account_balance("b".to_string(), 30, 0, 2).unwrap();
    tokens.transfer_tokens("a".to_string(), "b".to_string(), 25, 3).unwrap();
    let a = tokens.get_account("a".to_string()).unwrap();
    let b = tokens.get_account("b".to_string()).unwrap();
    assert_eq!(a.token_info.token_balance, 45);
    assert_eq!(b.token_info.token_balance, 55);
    assert!(tokens.transfer_tokens("a".to_string(), "b".to_string(), 1000, 4).is_err());
    assert!(tokens.transfer_tokens("a".to_string(), "zed".to_string(), 1, 4).is_err());
}

#[test]
fn new_user_grant_is_created_and_claimed_once() {
    let mut tokens = TokenStore::new();
    tokens.create_account("u".to_string(), 1).unwrap();
    assert_eq!(tokens.create_and_claim_newuser_grant("u".to_string(), 5_000_000), Ok(NEW_USER_GRANT_AMOUNT));
    assert_eq!(tokens.get_account("u".to_string()).unwrap().token_info.credit_balance, NEW_USER_GRANT_AMOUNT);
    assert!(tokens.create_and_claim_newuser_grant("u".to_string(), 6_000_000).is_err());
    let g = tokens.get_token_grant("u").unwrap();
    assert_eq!(g.claimed_amount, g.amount);
}

#[test]
fn new_user_grant_in_another_state_is_refused() {
    let mut tokens = TokenStore::new();
    tokens.create_account("u".to_string(), 1).unwrap();
    let grant = TokenGrant {
        recipient: "u".to_string(),
        amount: 10,
        start_time: 0,
        claimed_amount: 0,
        status: TokenGrantStatus::Cancelled,
    };
    tokens.create_token_grant(grant).unwrap();
    assert_eq!(
        tokens.create_and_claim_newuser_grant("u".to_string(), 7).unwrap_err(),
        "Grant exists but is not active. Current status: Cancelled"
    );
}

#[test]
fn new_mcp_grant_is_created_and_claimed() {
    let mut tokens = TokenStore::new();
    tokens.create_account("dev".to_string(), 1).unwrap();
    assert_eq!(tokens.create_and_claim_newmcp_grant("dev".to_string(), "mem".to_string(), 50_000), Ok(NEW_MCP_GRANT_AMOUNT));
    let g = tokens.get_mcp_grant("dev", "mem").unwrap();
    assert_eq!(g.status, TokenGrantStatus::Completed);
    assert_eq!(g.start_time, 5);
    assert!(tokens.claim_mcp_grant_with_mcpname("dev", "mem", 60_000).is_err());
    assert!(tokens.create_and_claim_newmcp_grant("nobody".to_string(), "mem".to_string(), 1).is_err());
}

#[test]
fn refusals_carry_their_messages() {
    let mut tokens = TokenStore::new();
    let mut mcps = McpStore::new();
    assert_eq!(tokens.update_account_balance("x".to_string(), 1, 0, 1).unwrap_err(), "Account not found");
    tokens.create_account("a".to_string(), 1).unwrap();
    assert_eq!(tokens.update_account_balance("a".to_string(), -1, 0, 2).unwrap_err(), "Insufficient token balance");
    assert_eq!(tokens.update_account_balance("a".to_string(), 0, -1, 2).unwrap_err(), "Insufficient credit balance");
    assert_eq!(
        tokens.stack_credits(&mut mcps, "a".to_string(), "m".to_string(), MIN_STAKE_AMOUNT - 1, 3).unwrap_err(),
        "Minimum stake amount is 100"
    );
    assert_eq!(
        tokens.stack_credits(&mut mcps, "a".to_string(), "m".to_string(), MIN_STAKE_AMOUNT, 3).unwrap_err(),
        "Insufficient credit balance"
    );
    assert_eq!(tokens.unstack_credits("a".to_string(), 1, 4).unwrap_err(), "Insufficient staked credits");
    assert_eq!(tokens.transfer_tokens("x".to_string(), "a".to_string(), 1, 5).unwrap_err(), "From account not found");
    assert_eq!(tokens.transfer_tokens("a".to_string(), "x".to_string(), 1, 5).unwrap_err(), "To account not found");
    assert_eq!(tokens.use_credits("a".to_string(), 1, "svc".to_string(), None, 6).unwrap_err(), "Insufficient credit balance");
    assert_eq!(tokens.claim_grant("a", 7).unwrap_err(), "No grant found for this account");
    assert_eq!(tokens.claim_mcp_grant("a", 7).unwrap_err(), "No active MCP grants found for this account");
    assert_eq!(tokens.delete_account("x".to_string()).unwrap_err(), "Account not found");
    assert_eq!(tokens.delete_recharge_principal_account().unwrap_err(), "No principal account mapping exists to delete");
    assert_eq!(tokens.get_token_grants_count(), 0);
    let grant = || TokenGrant { recipient: "a".to_string(), amount: 5, start_time: 100, claimed_amount: 0, status: TokenGrantStatus::Active };
    tokens.create_token_grant(grant()).unwrap();
    tokens.create_token_grant(grant()).unwrap();
    assert_eq!(tokens.get_token_grants_count(), 1);
    assert_eq!(tokens.claim_grant("a", 7).unwrap_err(), "Grant period has not started");
}

#[test]
fn agent_and_mcp_refusals_carry_their_messages() {
    let mut agents = AgentStore::new();
    agents.add_agent_item(agent("bot", "o1")).unwrap();
    assert_eq!(agents.add_agent_item(agent("bot", "o2")).unwrap_err(), "Agent with name 'bot' already exists");
    assert_eq!(agents.update_agent_item(5, agent("bot", "o1")).unwrap_err(), "Index out of bounds");
    assert_eq!(agents.update_agent_item(0, agent("bot", "o2")).unwrap_err(), "Only the owner can update this item");
    let mut mcps = McpStore::new();
    mcps.add_mcp_item(mcp("mem"), "p1".to_string()).unwrap();
    assert_eq!(mcps.add_mcp_item(mcp("mem"), "p2".to_string()).unwrap_err(), "MCP with name 'mem' already exists");
    assert_eq!(mcps.update_mcp_item("nope".to_string(), mcp("nope")).unwrap_err(), "MCP with name 'nope' not found");
    assert_eq!(mcps.update_mcp_item("mem".to_string(), mcp("mem")).unwrap_err(), "Only the owner can update this item");
    assert_eq!(mcps.delete_mcp_item("nope".to_string()).unwrap_err(), "MCP with name 'nope' not found");
}
