use std::collections::HashMap;

use rsdirstat::tree::BreadcrumbEntry;
use rsdirstat::view::{
    ancestry_ends_from, breadcrumb_parts, hover_state, interpolation_steps, last_hit,
    navigable_target, rect_index, RectInfo, Step,
};

/// A drawn rectangle: what it stands for and where it is.
struct Drawn {
    info: RectInfo,
    x: f64,
    y: f64,
    w: f64,
    h: f64,
}

fn rect(id: i64, parent_id: u64, x: f64, y: f64, w: f64, h: f64, name: &str) -> Drawn {
    Drawn {
        info: RectInfo {
            id,
            parent_id,
            name: name.into(),
            size: 100,
            is_container: true,
            is_files: false,
            is_file: false,
        },
        x,
        y,
        w,
        h,
    }
}

/// Which rectangles the pointer at (`mx`, `my`) is over.
fn hits(rects: &[Drawn], mx: f64, my: f64) -> Vec<bool> {
    rects.iter().map(|r| mx >= r.x && mx < r.x + r.w && my >= r.y && my < r.y + r.h).collect()
}

fn infos(rects: Vec<Drawn>) -> Vec<RectInfo> {
    rects.into_iter().map(|r| r.info).collect()
}

#[test]
fn find_rect_index_prefers_last_matching_rect() {
    let rects = vec![rect(1, 0, 0.0, 0.0, 10.0, 10.0, "a"), rect(2, 0, 0.0, 0.0, 10.0, 10.0, "b")];
    assert_eq!(last_hit(&hits(&rects, 5.0, 5.0)), Some(1));
}

#[test]
fn pointer_outside_every_rect_hits_none() {
    let rects = vec![rect(1, 0, 0.0, 0.0, 10.0, 10.0, "a")];
    assert_eq!(last_hit(&hits(&rects, 10.0, 5.0)), None);
}

#[test]
fn find_navigable_target_skips_files_and_negative_ids() {
    let mut files = rect(-1, 0, 0.0, 0.0, 10.0, 10.0, "files");
    files.info.is_files = true;
    let mut file = rect(2, 0, 0.0, 0.0, 10.0, 10.0, "file");
    file.info.is_file = true;
    let dir = rect(3, 0, 0.0, 0.0, 10.0, 10.0, "dir");
    let rects = vec![files, file, dir];
    let over = hits(&rects, 5.0, 5.0);
    assert_eq!(navigable_target(&infos(rects), &over), Some(2));
}

#[test]
fn build_hover_state_includes_breadcrumb_and_ancestors() {
    let root = rect(1, 0, 0.0, 0.0, 100.0, 100.0, "src");
    let child = rect(2, 1, 10.0, 10.0, 40.0, 40.0, "nested");
    let leaf = Drawn {
        info: RectInfo {
            id: 3,
            parent_id: 2,
            name: "main.rs".into(),
            size: 42,
            is_container: false,
            is_files: false,
            is_file: true,
        },
        x: 15.0,
        y: 15.0,
        w: 10.0,
        h: 10.0,
    };
    let breadcrumb = vec![BreadcrumbEntry { id: 0, name: "/tmp".into() }];
    let drawn = vec![root, child, leaf];
    let hovered = last_hit(&hits(&drawn, 16.0, 16.0)).unwrap();
    let rects = infos(drawn);
    let hover = hover_state(&rects, &rect_index(&rects), &breadcrumb_parts(&breadcrumb), hovered);
    assert_eq!(hover.hovered_index, 2);
    assert_eq!(hover.ancestor_indices, vec![1, 0]);
    assert_eq!(hover.path_text, "/tmp/src/nested/main.rs");
    assert_eq!(hover.size, 42);
}

#[test]
fn breadcrumb_parts_show_the_unnamed_root_as_slash() {
    let breadcrumb = vec![BreadcrumbEntry { id: 1, name: String::new() }, BreadcrumbEntry { id: 2, name: "home".into() }];
    assert_eq!(breadcrumb_parts(&breadcrumb), vec!["/".to_string(), "home".to_string()]);
}

#[test]
fn rect_index_keeps_the_last_rect_of_each_directory() {
    let rects = infos(vec![
        rect(4, 0, 0.0, 0.0, 1.0, 1.0, "a"),
        rect(-2, 4, 0.0, 0.0, 1.0, 1.0, "f"),
        rect(4, 0, 0.0, 0.0, 1.0, 1.0, "a again"),
        rect(7, 4, 0.0, 0.0, 1.0, 1.0, "b"),
    ]);
    let index = rect_index(&rects);
    let expected: HashMap<u64, usize> = [(4, 2), (7, 3)].into_iter().collect();
    assert_eq!(index, expected);
}

#[test]
fn interpolate_rects_handles_matches_and_exits() {
    let from = vec![rect(1, 0, 0.0, 0.0, 100.0, 50.0, "a"), rect(2, 0, 100.0, 0.0, 50.0, 50.0, "b")];
    let to = vec![rect(1, 0, 50.0, 50.0, 50.0, 25.0, "a"), rect(3, 0, 0.0, 0.0, 20.0, 20.0, "c")];
    let from_ids: Vec<i64> = from.iter().map(|r| r.info.id).collect();
    let to_ids: Vec<i64> = to.iter().map(|r| r.info.id).collect();
    let progress = 0.5;
    // The geometry of each step, halfway through.
    let interpolated: Vec<(i64, f64, f64)> = interpolation_steps(&from_ids, &to_ids)
        .into_iter()
        .map(|step| match step {
            Step::Matched { from: f, to: t } => {
                let (a, b) = (&from[f], &to[t]);
                (b.info.id, a.x + (b.x - a.x) * progress, a.w + (b.w - a.w) * progress)
            }
            Step::Entering { to: t } => {
                let b = &to[t];
                (b.info.id, b.x + b.w * 0.5 * (1.0 - progress), b.w * progress)
            }
            Step::Exiting { from: f } => {
                let a = &from[f];
                (a.info.id, a.x + a.w * 0.5 * progress, a.w * (1.0 - progress))
            }
        })
        .collect();

    assert_eq!(interpolated.len(), 3);
    assert_eq!(interpolated[0].0, 1);
    assert_eq!(interpolated[0].1, 25.0);
    assert_eq!(interpolated[0].2, 75.0);

    assert_eq!(interpolated[1].0, 3);
    assert_eq!(interpolated[1].2, 10.0);

    assert_eq!(interpolated[2].0, 2);
    assert_eq!(interpolated[2].2, 25.0);
}

#[test]
fn interpolation_steps_match_the_last_old_rect_with_the_id() {
    let steps = interpolation_steps(&vec![5, 6, 5], &vec![5, 9]);
    assert!(matches!(steps[0], Step::Matched { from: 2, to: 0 }));
    assert!(matches!(steps[1], Step::Entering { to: 1 }));
    assert!(matches!(steps[2], Step::Exiting { from: 1 }));
    assert_eq!(steps.len(), 3);
}

#[test]
fn walk_up_through_rects_ends_unless_it_loops() {
    let rects = infos(vec![rect(1, 0, 0.0, 0.0, 1.0, 1.0, "a"), rect(2, 1, 0.0, 0.0, 1.0, 1.0, "b")]);
    let index = rect_index(&rects);
    assert!(ancestry_ends_from(&rects, &index, 2));
    assert!(ancestry_ends_from(&rects, &index, 9));
    let looping = infos(vec![rect(5, 6, 0.0, 0.0, 1.0, 1.0, "x"), rect(6, 5, 0.0, 0.0, 1.0, 1.0, "y")]);
    assert!(!ancestry_ends_from(&looping, &rect_index(&looping), 5));
    let stray: HashMap<u64, usize> = [(3, 7)].into_iter().collect();
    assert!(!ancestry_ends_from(&rects, &stray, 3));
}
