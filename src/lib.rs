pub mod buffer_pool_manager;
pub mod config;
pub mod disk_scheduler;
pub mod lru_k_replacer;
pub mod page;
pub mod page_guard;
