pub mod config;
pub mod errors;
pub mod locate;
pub mod parse;
pub mod select;
pub mod text;

pub use config::make_config;
pub use config::Args;
pub use config::Config;
pub use errors::FortuneError;
pub use locate::find_files;
pub use locate::SourceWalk;
pub use locate::WalkEntry;
pub use parse::read_fortunes;
pub use parse::FileRead;
pub use parse::Fortune;
pub use select::filter_fortunes;
pub use select::pick_fortune;
pub use select::pick_message;
pub use select::FilterItem;
pub use select::Pattern;
