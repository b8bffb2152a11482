pub mod concatenate;
pub mod laws;
pub mod parse;
pub mod read;
pub mod split;
pub mod tags;
pub mod template;
pub mod validator;
