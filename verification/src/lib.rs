//! The logic of a hosts-file editor: reading the hosts file into mappings
//! and other lines, editing the mappings, writing the lines back, merging a
//! remote block of GitHub mappings, ordering backups, summarising texts for
//! the diagnostic log, and deciding which system commands to run to flush
//! the DNS cache or to gain administrator rights.
pub mod backup_service;
pub mod clock;
pub mod codec;
pub mod commands;
pub mod diagnostic_log;
pub mod dns_service;
pub mod elevation;
pub mod hosts_parser;
pub mod hosts_service;
pub mod models;
pub mod text;
