use vstd::prelude::*;

pub mod annotate;
pub mod asns;
pub mod cidr;
pub mod client;
pub mod error;
pub mod index;
pub mod intern;
pub mod ip;
pub mod ip_laws;
pub mod ip_text;
pub mod loader;
pub mod snapshot;
pub mod text;
pub mod webservice;

verus! {

/// Version of the programs.
pub const VERSION: &'static str = "0.2.5";

/// Location of the dataset that is used when none is configured.
pub const DEFAULT_DB_URL: &'static str = "https://iptoasn.com/data/ip2asn-combined.tsv.gz";

} // verus!
