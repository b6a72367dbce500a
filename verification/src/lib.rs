//! A small geo-IP database: it ingests delimited-text records that map
//! country codes to IPv4 ranges, expands each range into its usable host
//! addresses (excluding the network and broadcast address), caches the
//! expansion per country, and serves random lookups.

pub mod ip_database;
mod rng;
pub mod text;
