pub mod text;
pub mod random;
pub mod settings;
pub mod utils;
pub mod experiments;
