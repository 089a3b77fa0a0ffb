use vstd::prelude::*;

pub mod idx;
pub mod info;
pub mod input;
pub mod istring;
pub mod kids;
pub mod large_text;
pub mod lisp;
pub mod number;
pub mod pod;
pub mod text_util;
pub mod view;
pub mod window;
pub mod atlas;
pub mod btree;
pub mod command_handler;
pub mod commands;
pub mod compiler;
pub mod event_loop;
pub mod flow;
pub mod geom;
pub mod highlight;
pub mod gon;
