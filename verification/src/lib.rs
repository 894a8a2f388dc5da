//! Candidate-block assembly and proof-of-work mining over validated
//! transactions.
//!
//! Raw transactions are decoded ([`codec`]), each input is classified
//! ([`script`]) and its signature checked ([`signature`]), and a transaction
//! is accepted only as a whole ([`transaction`]). The transactions of a pool
//! that are accepted form the candidate set ([`candidates`]); they are laid
//! out behind a reward transaction and a header ([`block`]), and
//! the header's nonce is searched until the block's double hash ([`hash`])
//! is below a target ([`mining`]).

pub mod bytes;
pub mod hash;
pub mod block;
pub mod codec;
pub mod roundtrip;
pub mod script;
pub mod signature;
pub mod transaction;
pub mod candidates;
pub mod mining;

pub use block::{construct_block, create_coinbase_transaction};
pub use candidates::select_candidates;
pub use mining::mine_block;
pub use transaction::validate_transaction;
