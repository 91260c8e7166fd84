//! rinkaku: condensing a change into the signatures of what it touched.

pub mod text;
pub mod repo_path;
pub mod git_quote;
pub mod escape;
pub mod signature_bound;
pub mod path_proximity;
pub mod project_scope;
pub mod signature_slice;
pub mod deps;
pub mod extract;
pub mod render;
pub mod cli;
pub mod language;
pub mod dependency_update;
pub mod scroll;
pub mod styled;
pub mod wrap;
pub mod pane;
pub mod slug;
pub mod str_map;
pub mod deps_cache;
pub mod git_output;
pub mod overlay;
pub mod markdown;
pub mod syntax;
pub mod definition;
pub mod pipeline;
pub mod symbols;
pub mod index;
pub mod quit_confirm;
