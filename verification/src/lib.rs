//! Diceware passphrases: a word list keyed by five-digit codes, a sampler of
//! such codes, and the assembly of passphrases from the words the codes select.

pub mod passphrase;
pub mod sampler;
pub mod session;
pub mod text;
pub mod wordlist;
