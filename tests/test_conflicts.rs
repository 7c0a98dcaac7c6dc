use jj_repo::conflicts::{marker_len, materialize, parse, resolve_tool_output, Conflict, ConflictMarkerStyle, Resolution};

fn lines(text: &str) -> Vec<Vec<char>> {
    text.lines().map(|l| l.chars().collect()).collect()
}

fn text(lines: &[Vec<char>]) -> String {
    lines.iter().map(|l| l.iter().collect::<String>() + "\n").collect()
}

fn two_way() -> Conflict {
    Conflict { removes: vec![lines("base\n")], adds: vec![lines("a\n"), lines("b\n")] }
}

#[test]
fn two_way_conflict_in_diff_style() {
    let (out, l) = materialize(&two_way(), ConflictMarkerStyle::Diff);
    assert_eq!(l, 7);
    assert_eq!(
        text(&out),
        "<<<<<<< Conflict 1 of 1\n%%%%%%% Changes from base to side #1\n-base\n+a\n+++++++ Contents of side #2\nb\n>>>>>>> Conflict 1 of 1 ends\n"
    );
}

#[test]
fn two_way_conflict_in_snapshot_style() {
    let (out, l) = materialize(&two_way(), ConflictMarkerStyle::Snapshot);
    assert_eq!(l, 7);
    assert_eq!(
        text(&out),
        "<<<<<<< Conflict 1 of 1\n+++++++ Contents of side #1\na\n------- Contents of base\nbase\n+++++++ Contents of side #2\nb\n>>>>>>> Conflict 1 of 1 ends\n"
    );
}

#[test]
fn two_way_conflict_in_git_style() {
    let conflict = two_way();
    let (out, l) = materialize(&conflict, ConflictMarkerStyle::Git);
    assert_eq!(l, 7);
    assert_eq!(
        text(&out),
        "<<<<<<< Side #1 (Conflict 1 of 1)\na\n||||||| Base\nbase\n=======\nb\n>>>>>>> Side #2 (Conflict 1 of 1 ends)\n"
    );
    let back = parse(&out, l, ConflictMarkerStyle::Git).unwrap();
    assert_eq!(back.adds, conflict.adds);
    assert_eq!(back.removes, conflict.removes);
}

#[test]
fn diff_style_keeps_shared_lines_as_context() {
    let conflict = Conflict {
        removes: vec![lines("top\nbase\nbottom\n")],
        adds: vec![lines("top\na\nbottom\n"), lines("b\n")],
    };
    let (out, l) = materialize(&conflict, ConflictMarkerStyle::Diff);
    assert_eq!(
        text(&out),
        "<<<<<<< Conflict 1 of 1\n%%%%%%% Changes from base to side #1\n top\n-base\n+a\n bottom\n+++++++ Contents of side #2\nb\n>>>>>>> Conflict 1 of 1 ends\n"
    );
    let back = parse(&out, l, ConflictMarkerStyle::Diff).unwrap();
    assert_eq!(back.adds, conflict.adds);
    assert_eq!(back.removes, conflict.removes);
}

#[test]
fn three_way_diff_labels_number_the_bases() {
    let conflict = Conflict {
        removes: vec![lines("base\n"), lines("base\n")],
        adds: vec![lines("a\n"), lines("b\n"), lines("c\n")],
    };
    let (out, _) = materialize(&conflict, ConflictMarkerStyle::Diff);
    assert_eq!(
        text(&out),
        "<<<<<<< Conflict 1 of 1\n%%%%%%% Changes from base #1 to side #1\n-base\n+a\n%%%%%%% Changes from base #2 to side #2\n-base\n+b\n+++++++ Contents of side #3\nc\n>>>>>>> Conflict 1 of 1 ends\n"
    );
}

#[test]
fn two_way_conflict_resolve_round_trip() {
    let conflict = two_way();
    let (out, l) = materialize(&conflict, ConflictMarkerStyle::Diff);
    let tool_output = out.clone();
    match resolve_tool_output(&tool_output, false, l, ConflictMarkerStyle::Diff) {
        Resolution::Resolved(f) => assert_eq!(f, out),
        Resolution::Conflicted(_) => panic!("a tool that does not edit markers resolves the file"),
    }
    match resolve_tool_output(&tool_output, true, l, ConflictMarkerStyle::Diff) {
        Resolution::Conflicted(c) => {
            assert_eq!(c.adds, conflict.adds);
            assert_eq!(c.removes, conflict.removes);
        }
        Resolution::Resolved(_) => panic!("markers left in the output are a conflict"),
    }
}

#[test]
fn long_runs_lengthen_the_markers() {
    let conflict = Conflict {
        removes: vec![lines("======= base\n")],
        adds: vec![lines("<<<<<<< a\n"), lines("+++++++++ b\n>>>>>>> b\n")],
    };
    assert_eq!(marker_len(&conflict), 11);
    for style in [ConflictMarkerStyle::Diff, ConflictMarkerStyle::Snapshot, ConflictMarkerStyle::Git] {
        let (out, l) = materialize(&conflict, style);
        assert_eq!(l, 11);
        let back = parse(&out, l, style).unwrap();
        assert_eq!(back.adds, conflict.adds);
        assert_eq!(back.removes, conflict.removes);
        assert!(parse(&out, 7, style).is_none());
    }
}

#[test]
fn three_way_conflict_round_trips() {
    let conflict = Conflict {
        removes: vec![lines("base\n"), lines("")],
        adds: vec![lines("a\nshared\n"), lines("b\n"), lines("c\n-------x\n")],
    };
    for style in [ConflictMarkerStyle::Diff, ConflictMarkerStyle::Snapshot] {
        let (out, l) = materialize(&conflict, style);
        assert_eq!(l, 9);
        let back = parse(&out, l, style).unwrap();
        assert_eq!(back.adds, conflict.adds);
        assert_eq!(back.removes, conflict.removes);
    }
}

#[test]
fn one_long_run_sets_the_marker_length() {
    let conflict = Conflict { removes: vec![lines("|||||||| x\n")], adds: vec![lines("a\n"), lines("b\n")] };
    assert_eq!(marker_len(&conflict), 10);
    let plain = Conflict { removes: vec![lines("======\n")], adds: vec![lines("a\n"), lines("b\n")] };
    assert_eq!(marker_len(&plain), 8);
    let short = Conflict { removes: vec![lines("=====\n")], adds: vec![lines("a\n"), lines("b\n")] };
    assert_eq!(marker_len(&short), 7);
}

#[test]
fn text_without_markers_is_resolved() {
    let plain = lines("just\ntext\n");
    assert!(parse(&plain, 7, ConflictMarkerStyle::Diff).is_none());
    match resolve_tool_output(&plain, true, 7, ConflictMarkerStyle::Snapshot) {
        Resolution::Resolved(f) => assert_eq!(f, plain),
        Resolution::Conflicted(_) => panic!("no markers"),
    }
}
