pub mod counts;
pub mod index;
pub mod model;
pub mod score;
pub mod table;
pub mod tokenizer;

pub use index::{FTSTree, FtsError, QueryStats, TermMatch, TokenStat};
pub use model::{deserialize_id, serialize_id, FriendData, Movie, User};
pub use tokenizer::{is_token_charcter, split_runs, tokens_iter};
