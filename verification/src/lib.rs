//! Gloomy: the integer, text and state logic of a declarative UI toolkit.
//!
//! Floating-point geometry, GPU rendering and file I/O live in the
//! application crate; this library holds the parts whose behaviour can be
//! stated exactly: scissor clipping, image diffing, the rich-text markup
//! parser, tabular data sources, focus handling, trees, themes and caches.
pub mod cluster;
pub mod data_source;
pub mod datagrid;
pub mod designer;
pub mod diff;
pub mod draw_list;
pub mod fonts;
pub mod grid_flow;
pub mod grid_math;
pub mod interaction;
pub mod kpi;
pub mod layout;
pub mod pixels;
pub mod render_context;
pub mod rich_text;
pub mod scissor;
pub mod snapshot;
pub mod style;
pub mod text_input;
pub mod text_util;
pub mod theme;
pub mod tree;
pub mod ui_tree;
pub mod validation;
pub mod widget;
pub mod widget_state;
