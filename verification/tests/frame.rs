use editchain_history::frame::{renders, FrameBatch};
use editchain_history::step::{DomOp, Send, Step, Viewport};

#[test]
fn a_burst_commits_one_window_and_acknowledges_every_revision() {
    let mut batch = FrameBatch::new(Viewport::new(3400, 340));
    for revision in 1_i64..=10 {
        let mut step = Step::new();
        step.ops.push(DomOp::ReanchorLive {
            top: 0,
            bottom: 20,
            scroll_top: 3400_i64.saturating_add(revision.saturating_mul(34)),
            animate_connections: true,
        });
        step.sends.push(Send::LiveSettled {
            snapshot_id: revision.to_string(),
            error: None,
        });
        batch.push(step);
    }
    assert_eq!(batch.viewport.scroll_top.get(), 3740);
    let step = batch.finish(94, 136, false);
    assert_eq!(
        step.ops,
        vec![DomOp::ReanchorLive {
            top: 94,
            bottom: 136,
            scroll_top: 3740,
            animate_connections: true
        }]
    );
    assert_eq!(step.sends.len(), 10);
}

#[test]
fn find_effects_follow_the_final_window_and_errors_retire_old_render_plans() {
    let mut batch = FrameBatch::new(Viewport::new(0, 340));
    let mut step = Step::new();
    step.ops = vec![
        DomOp::Reanchor {
            top: 10,
            bottom: 30,
        },
        DomOp::SetFindHighlight { abs: 20 },
        DomOp::FillPlaceholders,
    ];
    batch.push(step);
    assert_eq!(
        batch.finish(10, 30, false).ops,
        vec![
            DomOp::PatchWindow {
                top: 10,
                bottom: 30
            },
            DomOp::SetFindHighlight { abs: 20 }
        ]
    );
    let mut batch = FrameBatch::new(Viewport::new(0, 340));
    let mut step = Step::new();
    step.ops = vec![
        DomOp::FillPlaceholders,
        DomOp::ShowMessage {
            text: "failed".to_string(),
            error: true,
        },
    ];
    batch.push(step);
    assert!(matches!(
        batch.finish(0, 0, false).ops.as_slice(),
        [DomOp::ShowMessage { error: true, .. }]
    ));
}

#[test]
fn a_new_handoff_keeps_the_old_dom_until_current_coordinates_arrive() {
    let mut batch = FrameBatch::new(Viewport::new(0, 340));
    let mut step = Step::new();
    step.ops.push(DomOp::ReanchorLive {
        top: 0,
        bottom: 30,
        scroll_top: 0,
        animate_connections: true,
    });
    step.sends.push(Send::LiveSettled {
        snapshot_id: "previous".to_string(),
        error: None,
    });
    batch.push(step);
    let step = batch.finish(0, 30, true);
    assert!(step.ops.is_empty());
    assert_eq!(step.sends.len(), 1);
}

#[test]
fn a_frame_renders_once_and_keeps_one_saved_state() {
    let mut batch = FrameBatch::new(Viewport::new(0, 340));
    for top in 0..3 {
        let mut step = Step::new();
        step.ops.push(DomOp::AppendBelow {
            from: top,
            to: top + 1,
        });
        step.ops.push(DomOp::RefreshHeader);
        step.ops.push(DomOp::SetScrollTop(top * 34));
        batch.push(step);
    }
    let step = batch.finish(5, 9, false);
    assert_eq!(step.ops.iter().filter(|op| renders(op)).count(), 1);
    assert!(!step.ops.contains(&DomOp::RefreshHeader));
    assert!(step.ops.contains(&DomOp::SetScrollTop(68)));
    assert!(step.save_state.is_none());
}

#[test]
fn a_frame_renders_exactly_when_asked() {
    let frame = |ops: Vec<DomOp>, window_pending: bool| {
        let mut batch = FrameBatch::new(Viewport::new(0, 340));
        let mut step = Step::new();
        step.ops = ops;
        batch.push(step);
        batch.finish(3, 9, window_pending).ops
    };
    let message = || DomOp::ShowMessage {
        text: "failed".to_string(),
        error: true,
    };
    let window = DomOp::PatchWindow { top: 3, bottom: 9 };
    assert_eq!(
        frame(vec![DomOp::FillPlaceholders], false),
        vec![window.clone()]
    );
    assert_eq!(
        frame(vec![message(), DomOp::FillPlaceholders], false),
        vec![message(), window]
    );
    assert_eq!(
        frame(vec![DomOp::FillPlaceholders, message()], false),
        vec![message()]
    );
    assert_eq!(
        frame(vec![DomOp::ClearFindHighlight], false),
        vec![DomOp::ClearFindHighlight]
    );
    assert!(frame(vec![DomOp::FillPlaceholders], true).is_empty());
}
