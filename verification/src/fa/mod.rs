pub mod combine;
pub mod convert;
pub mod dfa;
pub mod enfa_queries;
pub mod epsilon_nfa;
pub mod minimize;
pub mod nfa;
pub mod state;
