//! Lakeside: ticket-gated Cashu faucet logic with verified contracts.
//!
//! The library holds the decisions of the faucet: how token amounts are
//! chosen, how ticket codes are normalised and hashed, how a ticket store is
//! merged with imported rows, how a claim is answered, and how a batch of
//! minted tokens is budgeted.  Everything that talks to the network, the disk
//! or the Cashu wallet lives outside the library.

pub mod decimal;
pub mod hashing;
pub mod metadata;
pub mod paths;
pub mod text;
pub mod timestamp;

pub mod token_amount;
pub mod token_format;

pub mod csv_import;
pub mod reimport;
pub mod ticket_order;
pub mod tickets;

pub mod faucet;
pub mod filenames;
pub mod minting;
pub mod wallet;
