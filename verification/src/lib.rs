//! Rendering engine of a Ruby source formatter: the token model, the
//! breakable-group layout resolver, the blank-line pass and the emission
//! state that a tree walker drives.
pub mod text;
pub mod delimiters;
pub mod line_tokens;
pub mod render_targets;
pub mod line_metadata;
pub mod intermediary;
pub mod render_queue_writer;
pub mod comment_block;
pub mod ordered_lines;
pub mod file_comments;
pub mod emission_model;
pub mod parser_state;
pub mod comment_laws;
pub mod comment_order_laws;
pub mod blank_line_laws;
pub mod pipeline_laws;
pub mod layout_laws;
pub mod indent_laws;
