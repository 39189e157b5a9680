pub mod engine;
pub mod laws;
pub mod token;

pub use engine::{process_rule, process_rules};
pub use token::{
    empty_token, str_to_tokens, token_from_string, tokens_structure, wrap, Token, TokenStructure,
    TokenView,
};
