pub mod animation;
pub mod annotations;
pub mod completion;
pub mod decorations;
pub mod graphics;
pub mod history;
pub mod init_cache;
pub mod kernel;
pub mod paths;
pub mod pattern;
pub mod raw_surface;
pub mod text;
pub mod terminal;
pub mod text_annotations;
pub mod time;
