//! Declarative find/replace patches over a tree of decompiled sources:
//! literal and regular-expression replacement, anchored truncation, and an
//! ordered patch runner that fails any patch that matches nothing.

pub mod editor;
pub mod matcher;
pub mod orchestrator;
