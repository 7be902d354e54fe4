//! The logic of a desktop reading and agent workspace: page text analysis,
//! selections, reading order, chat transcripts and panel state.
pub mod action_bar;
pub mod agent_config;
pub mod book_chat;
pub mod books;
pub mod boundary;
pub mod bridge;
pub mod chat;
pub mod classify;
pub mod columns;
pub mod copying;
pub mod dashboard;
pub mod diff_view;
pub mod double;
pub mod dropdown;
pub mod error;
pub mod formula;
pub mod formula_copy;
pub mod formula_image;
pub mod gestures;
pub mod holding;
pub mod input_bar;
pub mod json;
pub mod keyed;
pub mod keys;
pub mod layout;
pub mod lines;
pub mod markdown;
pub mod messages;
pub mod model;
pub mod page_order;
pub mod page_text;
pub mod page_cache;
pub mod page_geometry;
pub mod page_view;
pub mod paragraph;
pub mod paragraph_extent;
pub mod paragraph_walk;
pub mod plan;
pub mod reading;
pub mod rects;
pub mod quotes;
pub mod render_queue;
pub mod search;
pub mod selection;
pub mod sending;
pub mod sentence;
pub mod sentence_extent;
pub mod session;
pub mod settings;
pub mod sidebar;
pub mod signs;
pub mod sorting;
pub mod symbols;
pub mod text;
pub mod toc;
pub mod tool_call;
pub mod translation_input;
pub mod translation_run;
pub mod workspace;
