pub mod cfg;
pub mod concat_words;
pub mod construct;
pub mod decompose;
pub mod decompose_words;
pub mod epsilon_free;
pub mod example;
pub mod factor_words;
pub mod generating;
pub mod inline_words;
pub mod intersection;
pub mod intersection_words;
pub mod membership;
pub mod named;
pub mod normal;
pub mod parse;
pub mod production;
pub mod queries;
pub mod reduce_words;
pub mod simplify;
pub mod substitute;
pub mod substitute_words;
pub mod terminal;
pub mod terminal_words;
pub mod transform;
pub mod two_grams;
pub mod two_gram_words;
pub mod units;
pub mod variable;
