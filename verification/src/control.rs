//! How the server answers a browser request: which view setting changes, which path to reveal,
//! and when a scan may start.
use vstd::prelude::*;

use crate::filter::FilterConfig;
use crate::hierarchy::walk_terminates;
use crate::paths::{push_component, push_path_component};
use crate::tree::{path_of, DirTree};
use crate::web::{is_safe_component, single_normal_component};
use crate::wire::ClientMessage;

verus! {

/// The settings of the treemap view that requests change.
pub struct ViewSettings {
    pub view_root: Option<u64>,
    pub max_depth: u8,
    pub color_mode: u8,
    pub filter: FilterConfig,
}

/// What the server does about a request.
pub enum Reaction {
    /// Nothing.
    Ignore,
    /// Takes the new size of the viewport (bit patterns of 32-bit floats) and lays out again.
    Viewport { width_bits: u32, height_bits: u32 },
    /// Lays out again with the changed view settings.
    ViewChanged,
    /// Shows this path in the system's file manager.
    Reveal { path: String },
    /// Scans the current root again.
    StartScan,
    /// Scans this path from now on.
    ScanPath { path: String },
}

/// A filter with nothing set.
pub open spec fn is_clear_filter(filter: FilterConfig) -> bool {
    &&& filter.extensions@.len() == 0
    &&& filter.min_size == 0
    &&& filter.max_size == 0
    &&& filter.name_pattern@.len() == 0
}

/// The walk up from `x` towards the root ends (when there is a root).
pub open spec fn walk_to_root_ends(tree: DirTree, x: u64) -> bool {
    tree.root_id matches Some(r) ==> walk_terminates(tree.nodes@, x, Some(r))
}

/// A reveal request names a directory whose walk up to the root ends.
pub open spec fn reveal_walk_ends(message: ClientMessage, tree: DirTree) -> bool {
    match message {
        ClientMessage::RevealDir { id } => walk_to_root_ends(tree, id),
        ClientMessage::RevealFile { dir_id, name } => single_normal_component(name@)
            ==> walk_to_root_ends(tree, dir_id),
        _ => true,
    }
}

/// What `message` asks of the server, given the view settings, the tree and its scanned root
/// path, and whether a scan has started and whether it is done. View changes are made in
/// `view`; the rest is returned for the caller to carry out.
pub fn react_to_message(
    message: ClientMessage,
    view: &mut ViewSettings,
    tree: &DirTree,
    root_path: &str,
    scan_started: bool,
    scan_done: bool,
) -> (reaction: Reaction)
    requires
        reveal_walk_ends(message, *tree),
    ensures
        match message {
            ClientMessage::Viewport { width_bits, height_bits } => reaction == (Reaction::Viewport {
                width_bits,
                height_bits,
            }) && *final(view) == *old(view),
            ClientMessage::Navigate { id } => {
                &&& reaction == Reaction::ViewChanged
                &&& final(view).view_root == Some(id)
                &&& final(view).max_depth == old(view).max_depth
                &&& final(view).color_mode == old(view).color_mode
                &&& final(view).filter == old(view).filter
            },
            ClientMessage::RevealDir { id } => {
                &&& *final(view) == *old(view)
                &&& match path_of(tree.nodes@, tree.root_id, id, root_path@) {
                    Some(p) => reaction matches Reaction::Reveal { path } && path@ == p,
                    None => reaction == Reaction::Ignore,
                }
            },
            ClientMessage::RevealFile { dir_id, name } => {
                &&& *final(view) == *old(view)
                &&& if single_normal_component(name@) {
                    match path_of(tree.nodes@, tree.root_id, dir_id, root_path@) {
                        Some(p) => reaction matches Reaction::Reveal { path } && path@
                            == push_component(p, name@),
                        None => reaction == Reaction::Ignore,
                    }
                } else {
                    reaction == Reaction::Ignore
                }
            },
            ClientMessage::Rescan => *final(view) == *old(view) && reaction == (if scan_done {
                Reaction::StartScan
            } else {
                Reaction::Ignore
            }),
            ClientMessage::SetDepth { depth } => {
                &&& reaction == Reaction::ViewChanged
                &&& final(view).max_depth == depth
                &&& final(view).view_root == old(view).view_root
                &&& final(view).color_mode == old(view).color_mode
                &&& final(view).filter == old(view).filter
            },
            ClientMessage::ColorMode { mode } => {
                &&& reaction == Reaction::ViewChanged
                &&& final(view).color_mode == mode
                &&& final(view).view_root == old(view).view_root
                &&& final(view).max_depth == old(view).max_depth
                &&& final(view).filter == old(view).filter
            },
            ClientMessage::FilterExt { extensions } => {
                &&& reaction == Reaction::ViewChanged
                &&& final(view).filter.extensions == extensions
                &&& final(view).filter.min_size == old(view).filter.min_size
                &&& final(view).filter.max_size == old(view).filter.max_size
                &&& final(view).filter.name_pattern == old(view).filter.name_pattern
                &&& final(view).view_root == old(view).view_root
                &&& final(view).max_depth == old(view).max_depth
                &&& final(view).color_mode == old(view).color_mode
            },
            ClientMessage::FilterSize { min, max } => {
                &&& reaction == Reaction::ViewChanged
                &&& final(view).filter.min_size == min
                &&& final(view).filter.max_size == max
                &&& final(view).filter.extensions == old(view).filter.extensions
                &&& final(view).filter.name_pattern == old(view).filter.name_pattern
                &&& final(view).view_root == old(view).view_root
                &&& final(view).max_depth == old(view).max_depth
                &&& final(view).color_mode == old(view).color_mode
            },
            ClientMessage::FilterName { pattern } => {
                &&& reaction == Reaction::ViewChanged
                &&& final(view).filter.name_pattern == pattern
                &&& final(view).filter.extensions == old(view).filter.extensions
                &&& final(view).filter.min_size == old(view).filter.min_size
                &&& final(view).filter.max_size == old(view).filter.max_size
                &&& final(view).view_root == old(view).view_root
                &&& final(view).max_depth == old(view).max_depth
                &&& final(view).color_mode == old(view).color_mode
            },
            ClientMessage::ClearFilter => {
                &&& reaction == Reaction::ViewChanged
                &&& is_clear_filter(final(view).filter)
                &&& final(view).view_root == old(view).view_root
                &&& final(view).max_depth == old(view).max_depth
                &&& final(view).color_mode == old(view).color_mode
            },
            ClientMessage::ScanPath { path } => {
                &&& *final(view) == *old(view)
                &&& if !scan_started || scan_done {
                    reaction matches Reaction::ScanPath { path: p } && p == path
                } else {
                    reaction == Reaction::Ignore
                }
            },
        },
{
    match message {
        ClientMessage::Viewport { width_bits, height_bits } => Reaction::Viewport {
            width_bits,
            height_bits,
        },
        ClientMessage::Navigate { id } => {
            view.view_root = Some(id);
            Reaction::ViewChanged
        },
        ClientMessage::RevealDir { id } => {
            match tree.full_path(id, root_path) {
                Some(path) => Reaction::Reveal { path },
                None => Reaction::Ignore,
            }
        },
        ClientMessage::RevealFile { dir_id, name } => {
            if !is_safe_component(name.as_str()) {
                return Reaction::Ignore;
            }
            match tree.full_path(dir_id, root_path) {
                Some(path) => {
                    let mut path = path;
                    push_path_component(&mut path, name.as_str());
                    Reaction::Reveal { path }
                },
                None => Reaction::Ignore,
            }
        },
        ClientMessage::Rescan => {
            if scan_done {
                Reaction::StartScan
            } else {
                Reaction::Ignore
            }
        },
        ClientMessage::SetDepth { depth } => {
            view.max_depth = depth;
            Reaction::ViewChanged
        },
        ClientMessage::ColorMode { mode } => {
            view.color_mode = mode;
            Reaction::ViewChanged
        },
        ClientMessage::FilterExt { extensions } => {
            view.filter.extensions = extensions;
            Reaction::ViewChanged
        },
        ClientMessage::FilterSize { min, max } => {
            view.filter.min_size = min;
            view.filter.max_size = max;
            Reaction::ViewChanged
        },
        ClientMessage::FilterName { pattern } => {
            view.filter.name_pattern = pattern;
            Reaction::ViewChanged
        },
        ClientMessage::ClearFilter => {
            view.filter = FilterConfig::default();
            Reaction::ViewChanged
        },
        ClientMessage::ScanPath { path } => {
            if !scan_started || scan_done {
                Reaction::ScanPath { path }
            } else {
                Reaction::Ignore
            }
        },
    }
}

/// Milliseconds between two layouts while a scan is running.
pub const LAYOUT_INTERVAL_MS: u64 = 45;

/// Whether to lay the tree out again: it changed since the last layout and a browser is
/// connected, and while the scan runs, at least `LAYOUT_INTERVAL_MS` have passed since the
/// last layout.
pub fn layout_due(
    version: u64,
    last_version: u64,
    connections: u64,
    scan_done: bool,
    since_last_ms: u64,
) -> (due: bool)
    ensures
        due == (version != last_version && connections != 0 && (scan_done || since_last_ms
            >= LAYOUT_INTERVAL_MS)),
{
    if version == last_version || connections == 0 {
        return false;
    }
    scan_done || since_last_ms >= LAYOUT_INTERVAL_MS
}

/// The directory that the layout starts from: the one asked for when the tree holds it, else
/// the root; none without a root.
pub fn layout_root(tree: &DirTree, requested: Option<u64>) -> (start: Option<u64>)
    ensures
        start == (match tree.root_id {
            None => None,
            Some(r) => match requested {
                Some(v) => if tree.nodes@.contains_key(v) {
                    Some(v)
                } else {
                    Some(r)
                },
                None => Some(r),
            },
        }),
{
    let root = match tree.root_id {
        Some(r) => r,
        None => return None,
    };
    match requested {
        Some(v) => {
            if tree.nodes.contains_key(&v) {
                Some(v)
            } else {
                Some(root)
            }
        },
        None => Some(root),
    }
}

} // verus!
