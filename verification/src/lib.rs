//! Verified core of the upstream MCP pool: exposure policies, caches, routing
//! tables, bounded catalog projections and the decisions around upstream I/O.

pub mod text;
pub mod order;
pub mod stderr;
pub mod exposure;
pub mod task_route;
pub mod inflight;
pub mod bounded;
pub mod tool_catalog;
pub mod name_slots;
pub mod subject_tools;
pub mod kv;
pub mod skills_cache;
pub mod resources;
pub mod scoped_summary;
pub mod skills_read;
pub mod skills_list;
pub mod tool_call;
pub mod ranked;
pub mod subscription;
pub mod cancel_guard;
pub mod child_exit;
pub mod skills_store;
pub mod skills_view;
pub mod skills_direct;
pub mod skills_provider;
pub mod gateway_docs;
pub mod resource_catalog;
