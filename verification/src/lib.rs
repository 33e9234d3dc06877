//! Traffic, connection and DNS accounting for a router, with every rule proved.

pub mod access;
pub mod adding;
pub mod api;
pub mod asking;
pub mod attach;
pub mod bucket;
pub mod capture;
pub mod cidr;
pub mod clock;
pub mod closing;
pub mod collect;
pub mod connections;
pub mod conntrack;
pub mod counting;
pub mod days;
pub mod desired;
pub mod deviceset;
pub mod dns;
pub mod dnsfigures;
pub mod dnsmsg;
pub mod dnsrec;
pub mod dnsreport;
pub mod dnsstore;
pub mod dnstrack;
pub mod dnswire;
pub mod firewall;
pub mod flowwire;
pub mod frames;
pub mod history;
pub mod hosts;
pub mod hours;
pub mod interfaces;
pub mod ip;
pub mod json;
pub mod keeping;
pub mod keys;
pub mod layout;
pub mod limits;
pub mod listing;
pub mod mac;
pub mod monitor;
pub mod moved;
pub mod neighbors;
pub mod netlink;
pub mod number;
pub mod offload;
pub mod options;
pub mod orders;
pub mod packet;
pub mod persistence;
pub mod places;
pub mod policy;
pub mod recent;
pub mod ring;
pub mod ringfile;
pub mod rows;
pub mod runtime;
pub mod schedule;
pub mod series;
pub mod setting;
pub mod snapshot;
pub mod sort;
pub mod store;
pub mod system;
pub mod table;
pub mod tally;
pub mod telling;
pub mod text;
pub mod together;
pub mod topology;
pub mod trend;
pub mod usage;
pub mod written;
pub mod zones;
