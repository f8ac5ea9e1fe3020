use editchain_history::paint::{
    hex_nibble, lane_color, parse_backend, parse_css_hex_color, resolved_transitions, row_marks,
    vertex_count, BackendRequest, Level, Mark, RenderRow, Rgba, PALETTE_LEN,
};

fn row(lane: u32, above: Vec<u32>, below: Vec<u32>, transitions: Vec<(u32, u32)>) -> RenderRow {
    RenderRow {
        lane,
        above,
        below,
        transitions,
        is_subop: false,
        is_bundle: false,
    }
}

fn rgba(red: u8, green: u8, blue: u8, alpha: u8) -> Rgba {
    Rgba {
        red,
        green,
        blue,
        alpha,
    }
}

#[test]
fn background_color_accepts_css_hex_strings() {
    assert_eq!(
        parse_css_hex_color("#0E1116"),
        Some(rgba(14, 17, 22, 255)),
        "alpha defaults to opaque"
    );
}

#[test]
fn background_color_hex_forms_match_float_arrays() {
    assert_eq!(parse_css_hex_color("#abc"), Some(rgba(170, 187, 204, 255)));
    assert_eq!(
        parse_css_hex_color("#aabbcc"),
        Some(rgba(170, 187, 204, 255))
    );
    assert_eq!(
        parse_css_hex_color("#10203040"),
        Some(rgba(16, 32, 48, 64))
    );
    assert_eq!(parse_css_hex_color("#abcd"), Some(rgba(170, 187, 204, 221)));
}

#[test]
fn background_color_rejects_invalid_strings() {
    for invalid in ["red", "0e1116", "#12", "#12345", "#ggg", "#aabbccddee", ""] {
        assert!(
            parse_css_hex_color(invalid).is_none(),
            "the non-hex color {invalid:?} must be rejected"
        );
    }
    assert_eq!(hex_nibble('f'), Some(15));
    assert_eq!(hex_nibble('F'), Some(15));
    assert_eq!(hex_nibble('0'), Some(0));
    assert_eq!(hex_nibble('g'), None);
}

#[test]
fn palette_matches_production_hexes() {
    let expected: [[u8; 3]; 10] = [
        [0x48, 0xf1, 0xdc],
        [0xa1, 0x8a, 0xff],
        [0x6e, 0xe7, 0xa2],
        [0x5c, 0xa8, 0xff],
        [0xff, 0xc8, 0x6a],
        [0xff, 0x70, 0xa6],
        [0x72, 0xdd, 0xf7],
        [0xc7, 0x7d, 0xff],
        [0x64, 0xdf, 0xdf],
        [0xff, 0x8f, 0xa3],
    ];
    assert_eq!(expected.len(), PALETTE_LEN as usize);
    for (lane, [red, green, blue]) in expected.into_iter().enumerate() {
        assert_eq!(lane_color(lane as u32), rgba(red, green, blue, 255));
    }
    assert_eq!(lane_color(10), lane_color(0));
    assert_eq!(lane_color(13), lane_color(3));
}

#[test]
fn resolved_transitions_follow_production_rules() {
    let r = row(0, vec![0], vec![2], vec![(0, 2), (1, 0)]);
    let resolved = resolved_transitions(&r);
    assert_eq!(resolved.len(), 1, "only the connected transition is kept");
    let kept = resolved.first().expect("one transition");
    assert_eq!(kept.from_lane, 0, "from lane passes through");
    assert_eq!(kept.to_lane, 2, "to lane passes through");
    assert!(kept.start_at_dot, "starts at the row's own node");
    assert!(!kept.end_at_dot, "ends at the row boundary");
}

#[test]
fn dangling_transitions_are_dropped() {
    let plain = row_marks(&row(0, vec![], vec![], vec![]));
    assert_eq!(
        row_marks(&row(0, vec![], vec![], vec![(0, 2)])),
        plain,
        "a child-lane transition with no boundary backing is dropped"
    );
    assert_eq!(
        row_marks(&row(0, vec![], vec![], vec![(2, 0)])),
        plain,
        "a parent-lane transition with no above backing is dropped"
    );
}

#[test]
fn sub_operations_have_no_node() {
    let mut subop = row(0, vec![0], vec![], vec![]);
    subop.is_subop = true;
    assert_eq!(
        row_marks(&subop),
        vec![Mark::Line {
            lane: 0,
            from: Level::Top,
            to: Level::Middle
        }]
    );
    subop.is_subop = false;
    assert_eq!(row_marks(&subop).last(), Some(&Mark::Dot { lane: 0 }));
}

#[test]
fn transitions_own_the_halves_that_they_cross() {
    let marks = row_marks(&row(0, vec![0], vec![2], vec![(0, 2)]));
    assert!(
        marks.contains(&Mark::Line {
            lane: 0,
            from: Level::Top,
            to: Level::Middle
        }),
        "a transition from the node leaves the line above it"
    );
    assert!(
        !marks
            .iter()
            .any(|mark| matches!(mark, Mark::Line { lane: 2, .. })),
        "the transition owns the bottom half of its lane"
    );
    assert!(marks.iter().any(|mark| matches!(
        mark,
        Mark::Curve {
            from: Level::Middle,
            to: Level::Bottom,
            ..
        }
    )));
    let plain = row_marks(&row(0, vec![0], vec![2], vec![]));
    assert!(plain.contains(&Mark::Line {
        lane: 2,
        from: Level::Middle,
        to: Level::Bottom
    }));
}

#[test]
fn bundles_anchor_at_their_terminals() {
    let mut bundle = row(0, vec![0], vec![0], vec![]);
    bundle.is_bundle = true;
    assert_eq!(
        row_marks(&bundle),
        vec![
            Mark::Line {
                lane: 0,
                from: Level::Top,
                to: Level::Entry
            },
            Mark::Line {
                lane: 0,
                from: Level::Exit,
                to: Level::Bottom
            },
            Mark::Bundle { lane: 0 },
        ]
    );
    let mut outgoing = row(0, vec![], vec![2], vec![(0, 2)]);
    outgoing.is_bundle = true;
    assert!(matches!(
        row_marks(&outgoing).first(),
        Some(Mark::Curve {
            from: Level::Exit,
            to: Level::Bottom,
            ..
        })
    ));
    let mut incoming = row(0, vec![2], vec![], vec![(2, 0)]);
    incoming.is_bundle = true;
    assert!(matches!(
        row_marks(&incoming).first(),
        Some(Mark::Curve {
            from: Level::Top,
            to: Level::Entry,
            ..
        })
    ));
}

#[test]
fn graphics_interfaces_are_named() {
    assert_eq!(parse_backend("webgl"), Ok(BackendRequest::WebGl));
    assert_eq!(parse_backend("webgpu"), Ok(BackendRequest::WebGpu));
    assert_eq!(parse_backend("auto"), Ok(BackendRequest::Auto));
    assert_eq!(
        parse_backend("metal"),
        Err("unsupported GPU backend: metal".to_string())
    );
    assert_eq!(vertex_count(0), Some(0));
    assert_eq!(vertex_count(18), Some(3));
    assert_eq!(vertex_count(20), Some(3));
}
