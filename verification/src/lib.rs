//! The verified core of the AIO base backend: agent and MCP registries, the
//! token economy, social profiles and chat, pixel-art projects, protocol
//! indices, execution traces and webhook checks, each as an explicit store.
pub mod text;
pub mod sorted_map;
pub mod agent_asset_types;
pub mod mcp_asset_types;
pub mod paging;
pub mod token_economy_types;
pub mod token_economy;
pub mod society_profile_types;
pub mod pixel_creation_types;
pub mod aio_protocal_types;
pub mod trace_storage;
pub mod hmac;
pub mod types;
pub mod device_types;
pub mod aio_workledger_types;
pub mod json_value;
pub mod aio_invert_index_types;
pub mod mining_reword;
