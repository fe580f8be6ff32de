pub mod atx_heading;
pub mod block_spacing;
pub mod blockquote_marker;
pub mod code_fence;
pub mod continuation_indent;
pub mod emphasis;
pub mod byte_order_mark;
pub mod final_newline;
pub mod hard_tabs;
pub mod heading_style;
pub mod heading_increment;
pub mod headings;
pub mod line_endings;
pub mod list_marker;
pub mod list_marker_space;
pub mod ordered_list;
pub mod masking;
pub mod nested_indent;
pub mod sentence_per_line;
pub mod single_h1;
pub mod trailing_whitespace;
