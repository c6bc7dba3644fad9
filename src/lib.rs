pub mod arc;
pub mod args;
pub mod assembly;
pub mod decimal;
pub mod line;
pub mod nfl;
pub mod ordering;
pub mod part;
pub mod point;
pub mod text;
