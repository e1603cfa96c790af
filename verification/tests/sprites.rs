//! Overlay analysis and sprite extraction.

use ss13_map_mcp::brackets::contains_var_in_bracket;
use ss13_map_mcp::extraction::{
    composite_dir, composite_entry, describe_dmi, name_composite, plan_composites, plan_sprites, sprite_entry, Showing,
};
use ss13_map_mcp::objtree::{ObjectTree, TypeNode, TypeProc, TypeVar};
use ss13_map_mcp::overlays::{analyze_overlays, inherit_overlays, OverlayInfo};
use ss13_map_mcp::patterns::{
    match_recursive, parse_pattern, regex_escape, resolve_overlay_pattern, sanitize_dmi_path, sanitize_filename,
    simple_regex_match,
};
use ss13_map_mcp::prefab::{Constant, ConstantKind};
use ss13_map_mcp::sprites::{dir_to_string, icon_files, is_written, Compass, Dir, Dirs, Frames, Icon, IconState};
use ss13_map_mcp::syntax::{summarize_case, summarize_expr, AssignKind, Case, Expression, Follow, Statement, Term};
use ss13_map_mcp::walker::collect_extractable_types;

// ── Code ─────────────────────────────────────────────────────────────

fn base(term: Term) -> Expression {
    Expression::Base { term: Box::new(term), follow: Vec::new() }
}

fn ident(name: &str) -> Expression {
    base(Term::Ident(name.to_string()))
}

fn text(s: &str) -> Expression {
    base(Term::Str(s.to_string()))
}

fn call(name: &str, args: Vec<Expression>) -> Expression {
    base(Term::Call(name.to_string(), args))
}

fn interp(prefix: &str, parts: Vec<(Expression, &str)>) -> Expression {
    base(Term::InterpString(
        prefix.to_string(),
        parts.into_iter().map(|p| (Some(p.0), p.1.to_string())).collect(),
    ))
}

fn assign(kind: AssignKind, lhs: Expression, rhs: Expression) -> Statement {
    Statement::Expr(Expression::AssignOp { kind, lhs: Box::new(lhs), rhs: Box::new(rhs) })
}

fn adds(e: Expression) -> Statement {
    assign(AssignKind::AddAssign, ident("."), e)
}

fn sets(name: &str, value: &str) -> Statement {
    assign(AssignKind::Assign, ident(name), text(value))
}

fn when(condition: Expression, block: Vec<Statement>) -> Statement {
    Statement::If { arms: vec![(condition, block)], else_arm: None }
}

fn text_var(name: &str, value: &str) -> TypeVar {
    TypeVar {
        name: name.to_string(),
        constant: Some(Constant {
            kind: ConstantKind::Str(value.to_string()),
            text: String::new(),
            detail: String::new(),
        }),
        declared: None,
    }
}

fn proc(code: Vec<Statement>) -> TypeProc {
    TypeProc { name: "update_overlays".to_string(), bodies: vec![None, Some(code)] }
}

fn node(path: &str, parent: Option<usize>, level: usize, children: Vec<(&str, usize)>) -> TypeNode {
    TypeNode {
        path: path.to_string(),
        parent,
        level,
        children: children.into_iter().map(|c| (c.0.to_string(), c.1)).collect(),
        vars: Vec::new(),
        procs: Vec::new(),
    }
}

/// The root, `/obj`, `/obj/door` with the given code, and `/obj/door/glass` below it.
fn tree(code: Vec<Statement>) -> ObjectTree {
    let mut obj = node("/obj", Some(0), 1, vec![("door", 2)]);
    obj.vars.push(text_var("name", "thing"));
    let mut door = node("/obj/door", Some(1), 2, vec![("glass", 3)]);
    door.vars.push(text_var("icon", "icons/door.dmi"));
    door.vars.push(text_var("icon_state", "closed"));
    door.vars.push(text_var("suffix", "_std"));
    door.procs.push(proc(code));
    let mut glass = node("/obj/door/glass", Some(2), 3, Vec::new());
    glass.vars.push(text_var("suffix", "_glass"));
    glass.vars.push(text_var("pane", "clear"));
    ObjectTree { types: vec![node("", None, 0, vec![("obj", 1)]), obj, door, glass] }
}

fn analyze(code: Vec<Statement>) -> OverlayInfo {
    analyze_overlays(&tree(code), 2).expect("overlays")
}

fn names(info: &OverlayInfo) -> Vec<&str> {
    info.overlays.iter().map(|o| o.state_name.as_str()).collect()
}

#[test]
fn overlays_are_found_in_every_form() {
    let info = analyze(vec![
        adds(text("plain")),
        adds(call("mutable_appearance", vec![base(Term::Resource("icons/x.dmi".to_string())), text("lit")])),
        adds(call("emissive_appearance", vec![ident("icon"), text("glow")])),
        adds(call("get_airlock_overlay", vec![text("frame")])),
        adds(call("image", vec![ident("icon"), ident("src"), text("third")])),
        adds(call("image", vec![ident("icon"), text("second")])),
        adds(ident("suffix")),
        adds(interp("a-", vec![(ident("suffix"), "-b"), (ident("unknown"), "-c")])),
    ]);
    assert_eq!(
        names(&info),
        vec!["plain", "lit", "frame", "third", "second", "_std", "a-_std-b[unknown]-c"]
    );
    assert_eq!(info.overlays[1].icon_override, Some("icons/x.dmi".to_string()));
    assert!(info.complete);
    assert!(!info.inherited);
    assert_eq!(info.type_path, "/obj/door");
    assert_eq!(info.combos.len(), 1);
    assert_eq!(info.combos[0].len(), 7);
}

#[test]
fn what_is_not_understood_is_said() {
    assert!(!analyze(vec![adds(text("x")), adds(call("strange", vec![]))]).complete);
    assert!(!analyze(vec![adds(text("x")), adds(call("mutable_appearance", vec![text("a")]))]).complete);
    assert!(!analyze(vec![adds(text("x")), adds(call("image", vec![text("a")]))]).complete);
    assert!(!analyze(vec![adds(text("x")), adds(call("get_airlock_overlay", vec![]))]).complete);
    assert!(!analyze(vec![adds(text("x")), adds(call("get_airlock_overlay", vec![base(Term::Int(1))]))]).complete);
    let looped = analyze(vec![adds(text("x")), Statement::Other(vec![when(ident("c"), vec![adds(text("y"))])])]);
    assert!(!looped.complete);
    assert_eq!(names(&looped), vec!["x"]);
    assert!(analyze(vec![adds(text("x")), Statement::Other(vec![sets("a", "b")])]).complete);
    let unknown = analyze(vec![adds(ident("mystery"))]);
    assert!(!unknown.complete);
    assert_eq!(names(&unknown), vec!["[mystery]"]);
    assert!(analyze_overlays(&tree(vec![sets("a", "b")]), 2).is_none(), "nothing is added");
    assert!(analyze_overlays(&tree(vec![adds(text("x"))]), 1).is_none(), "no proc of its own");
}

#[test]
fn branches_become_combinations() {
    let info = analyze(vec![
        adds(text("base")),
        when(ident("open"), vec![adds(text("o1")), adds(text("o2"))]),
        Statement::If {
            arms: vec![(
                Expression::BinaryOp {
                    op: "Greater".to_string(),
                    lhs: Box::new(ident("power")),
                    rhs: Box::new(base(Term::Int(5))),
                },
                vec![Statement::ForList(vec![adds(text("looped"))])],
            )],
            else_arm: Some(vec![adds(text("other"))]),
        },
    ]);
    assert_eq!(
        info.combos,
        vec![
            vec!["base".to_string()],
            vec!["base".to_string(), "o1".to_string(), "o2".to_string()],
            vec!["base".to_string(), "looped".to_string()],
            vec!["base".to_string(), "other".to_string()],
            vec!["base".to_string(), "o1".to_string(), "o2".to_string(), "looped".to_string()],
            vec!["base".to_string(), "o1".to_string(), "o2".to_string(), "other".to_string()],
        ]
    );
    assert!(!info.overlays[0].conditional && info.overlays[0].condition_desc.is_none());
    assert_eq!(info.overlays[1].condition_desc, Some("open".to_string()));
    assert_eq!(info.overlays[3].condition_desc, Some("for loop iteration".to_string()));
    assert_eq!(info.overlays[4].condition_desc, Some("else".to_string()));
}

#[test]
fn separate_statements_combine_freely() {
    let one = |s: &str| vec![s.to_string()];
    let info = analyze(vec![
        when(ident("p"), vec![adds(text("a"))]),
        when(ident("q"), vec![adds(text("b"))]),
    ]);
    assert_eq!(info.combos, vec![one("a"), one("b"), vec!["a".to_string(), "b".to_string()]]);
    let nested = analyze(vec![when(
        ident("p"),
        vec![when(ident("q"), vec![adds(text("inner"))]), adds(text("outer"))],
    )]);
    assert_eq!(nested.combos, vec![vec!["inner".to_string(), "outer".to_string()], one("outer")]);
}

#[test]
fn a_branch_sees_the_value_given_in_it() {
    let arm = |v: &str, s: &str| (ident("c"), vec![sets("x", v), adds(interp(s, vec![(ident("x"), "")]))]);
    let info = analyze(vec![
        Statement::If { arms: vec![arm("a", "in-"), arm("b", "in-")], else_arm: None },
        adds(interp("after-", vec![(ident("x"), "")])),
    ]);
    assert_eq!(names(&info), vec!["in-a", "in-b", "after-[x]"]);
}

#[test]
fn a_declaration_in_a_branch_counts_there() {
    let declares = |v: &str| Statement::Var { name: "x".to_string(), value: Some(text(v)) };
    let info = analyze(vec![when(
        ident("p"),
        vec![sets("x", "a"), when(ident("q"), vec![declares("b"), adds(ident("x"))])],
    )]);
    assert_eq!(names(&info), vec!["b"]);
}

#[test]
fn there_are_never_more_than_sixty_four_combinations() {
    let arms = (0..80).map(|i| (ident("c"), vec![adds(text(&i.to_string()))])).collect();
    let info = analyze(vec![adds(text("base")), Statement::If { arms, else_arm: None }]);
    assert_eq!(info.combos.len(), 64);
    assert_eq!(info.combos[63], vec!["base".to_string(), "62".to_string()]);
    assert!(info.combos.iter().all(|c| c[0] == "base"));
}

fn airlock() -> Vec<Statement> {
    vec![
        Statement::Switch {
            input: ident("state"),
            cases: vec![
                (vec![Case::Exact(text("x")), Case::Range(base(Term::Int(1)), base(Term::Int(3)))], vec![sets("frame", "open")]),
                (vec![Case::Exact(base(Term::Null))], vec![sets("frame", "closed")]),
            ],
            default: Some(vec![sets("frame", "open")]),
        },
        adds(call("get_airlock_overlay", vec![ident("frame")])),
        adds(interp("fill_", vec![(ident("frame"), "")])),
        adds(text("always")),
        when(ident("welded"), vec![adds(text("welded"))]),
        adds(interp("", vec![(
            Expression::BinaryOp { op: "Add".to_string(), lhs: Box::new(ident("frame")), rhs: Box::new(ident("suffix")) },
            "!",
        )])),
    ]
}

#[test]
fn branched_variables_become_looks() {
    let info = analyze(airlock());
    assert_eq!(names(&info), vec!["[frame]", "fill_[frame]", "always", "welded", "[frame Add suffix]!"]);
    let looks = &info.visual_states;
    assert_eq!(looks.len(), 2);
    assert_eq!(looks[0].name, "closed");
    assert_eq!(looks[0].base_icon_state, Some("closed".to_string()));
    assert_eq!(looks[0].overlays, vec!["closed", "fill_closed", "closed_std!", "always"]);
    assert_eq!(looks[0].condition_desc, Some("state=[\"null\"]".to_string()));
    assert_eq!(looks[1].name, "open");
    assert_eq!(looks[1].overlays, vec!["open", "fill_open", "open_std!", "always"]);
    assert_eq!(looks[1].condition_desc, Some("state=[\"\\\"x\\\"\", \"1 to 3\"]".to_string()));
}

#[test]
fn heirs_put_in_their_own_values() {
    let t = tree(vec![
        adds(interp("p-", vec![(ident("pane"), "")])),
        adds(interp("q-", vec![(
            Expression::Base {
                term: Box::new(Term::Ident("src".to_string())),
                follow: vec![Follow::Field("deep".to_string()), Follow::Field("pane".to_string())],
            },
            "",
        )])),
        adds(text("plain")),
    ]);
    let own = analyze_overlays(&t, 2).expect("own");
    assert_eq!(names(&own), vec!["p-[pane]", "q-[src.deep.pane]", "plain"]);
    let heir = inherit_overlays(&t, 3, &own).expect("inherited");
    assert_eq!(names(&heir), vec!["p-clear", "q-clear", "plain"]);
    assert_eq!(heir.combos, vec![vec!["p-clear".to_string(), "q-clear".to_string(), "plain".to_string()]]);
    assert!(heir.inherited);
    assert_eq!(heir.type_path, "/obj/door/glass");
}

#[test]
fn types_are_recorded_with_what_they_inherit() {
    let t = tree(vec![adds(text("plain"))]);
    let types = collect_extractable_types(&t, None);
    assert_eq!(types, vec![2, 3], "the path of /obj has no slash behind it");
    let metas = t.record_types(&types);
    assert_eq!(metas[1].type_path, "/obj/door/glass");
    assert_eq!(metas[1].name, Some("thing".to_string()));
    assert_eq!(metas[1].desc, None);
    assert_eq!(metas[1].parent_path, "/obj/door");
    assert_eq!(metas[1].parent_chain, vec!["/obj/door".to_string(), "/obj".to_string()]);
    assert_eq!(metas[1].icon_state, Some("closed".to_string()));
    let info = metas[1].overlay_info.as_ref().expect("inherited");
    assert!(info.inherited);
    assert!(!metas[0].overlay_info.as_ref().expect("own").inherited);
    assert_eq!(icon_files(&metas), vec!["icons/door.dmi".to_string()]);
    assert_eq!(collect_extractable_types(&t, Some("/obj/door/g")), vec![3]);
    assert_eq!(t.build_parent_chain(1), Vec::<String>::new());
    let mut plain = t.record_types(&types).remove(0);
    assert!(is_written(&plain, true));
    plain.icon_file = None;
    assert!(!is_written(&plain, true) && is_written(&plain, false));
}

#[test]
fn some_types_are_left_out() {
    let mut t = tree(Vec::new());
    t.types[2].path = "/obj/effect/landmark".to_string();
    t.types[3].path = "/mob/living".to_string();
    assert_eq!(collect_extractable_types(&t, None), vec![3]);
    t.types[3].path = "/mob/camera/x".to_string();
    assert_eq!(collect_extractable_types(&t, None), Vec::<usize>::new());
}

// ── Words ────────────────────────────────────────────────────────────

#[test]
fn expressions_are_summed_up() {
    let e = Expression::Base {
        term: Box::new(Term::Ident("a".to_string())),
        follow: vec![
            Follow::Field("b".to_string()),
            Follow::Call("c".to_string()),
            Follow::Index,
            Follow::StaticField("d".to_string()),
            Follow::ProcReference("e".to_string()),
            Follow::Unary("Not".to_string()),
        ],
    };
    assert_eq!(summarize_expr(&e), "a.b.c()[...]::d::proc/eNot");
    assert_eq!(summarize_expr(&base(Term::Float("1.5".to_string()))), "1.5");
    assert_eq!(summarize_expr(&base(Term::Int(-4))), "-4");
    assert_eq!(summarize_expr(&base(Term::Other)), "...");
    assert_eq!(summarize_expr(&Expression::Other), "...");
    assert_eq!(summarize_case(&Case::Range(ident("a"), ident("b"))), "a to b");
}

// ── Patterns ─────────────────────────────────────────────────────────

#[test]
fn patterns_are_taken_apart() {
    let p = parse_pattern("a[b]c[d e]f");
    assert_eq!(p.parts.len(), 2);
    assert_eq!(p.parts[1], ("c".to_string(), "d e".to_string()));
    assert_eq!(p.rest, "f");
    assert!(p.closed);
    let open = parse_pattern("x[y]z[w");
    assert_eq!(open.parts.len(), 1);
    assert_eq!(open.rest, "z[w");
    assert!(!open.closed);
}

#[test]
fn patterns_match_states() {
    let names: Vec<String> =
        ["apcox-0", "apcox-", "apcox-12", "other"].iter().map(|s| s.to_string()).collect();
    assert_eq!(resolve_overlay_pattern("apcox-[locked]", &names), vec!["apcox-0".to_string(), "apcox-12".to_string()]);
    assert_eq!(resolve_overlay_pattern("other", &names), vec!["other".to_string()]);
    assert_eq!(resolve_overlay_pattern("none", &names), Vec::<String>::new());
    assert_eq!(resolve_overlay_pattern("apcox-[locked", &names), Vec::<String>::new());
    let dollar = vec!["a1$".to_string(), "a1\\".to_string(), "a1".to_string()];
    assert_eq!(resolve_overlay_pattern("a[x]$", &dollar), vec!["a1$".to_string()]);
}

#[test]
fn expressions_match_whole_texts() {
    assert_eq!(regex_escape("a.b[c]\\"), "a\\.b\\[c\\]\\\\");
    assert!(match_recursive("", ""));
    assert!(!match_recursive("", "a"));
    assert!(match_recursive("a.+c", "abbc"));
    assert!(!match_recursive("a.+c", "ac"));
    assert!(match_recursive("a\\.b", "a.b"));
    assert!(!match_recursive("a\\.b", "axb"));
    assert!(match_recursive("\\", "\\"));
    assert!(match_recursive(".+.+", "ab"));
    assert!(!match_recursive(".+.+", "a"));
    assert!(simple_regex_match("^a.+$", "ab"));
    assert!(!simple_regex_match("^a.+$", "b"));
    assert!(simple_regex_match("^.+\\$$", "b$"));
    assert!(!simple_regex_match("^.+\\$$", "b"));
    assert!(simple_regex_match("^a\\\\$", "a\\"));
    assert!(simple_regex_match("a\\$", "a$"));
}

#[test]
fn names_are_made_safe() {
    assert_eq!(sanitize_filename(""), "default");
    assert_eq!(sanitize_filename("a/b\\c:d*e?f\"g<h>i|j k"), "a_b_c_d_e_f_g_h_i_j_k");
    assert_eq!(sanitize_filename(&sanitize_filename("x y")), "x_y");
    assert_eq!(sanitize_dmi_path("icons/obj/power.dmi"), "icons__obj__power");
    assert_eq!(sanitize_dmi_path("a\\b.dmi.dmi"), "a__b");
}

#[test]
fn variables_are_words_in_placeholders() {
    assert!(contains_var_in_bracket("x[v]", "v"));
    assert!(contains_var_in_bracket("[v Add w]", "v"));
    assert!(contains_var_in_bracket("[w Add v]", "v"));
    assert!(contains_var_in_bracket("[u Add v Add w]", "v"));
    assert!(!contains_var_in_bracket("[vv]", "v"));
    assert!(!contains_var_in_bracket("v[w]", "v"));
    assert!(!contains_var_in_bracket("[v", "v"));
}

#[test]
fn placeholders_take_values() {
    let t = tree(Vec::new());
    let one = |pattern: &str| t.resolve_state_var_in_overlay(2, pattern, "v", "on");
    assert_eq!(one("a[v]b[v]"), Some("aonbon".to_string()));
    assert_eq!(one("[v Add suffix]"), Some("on_std".to_string()));
    assert_eq!(one("[suffix Add v]"), Some("_stdon".to_string()));
    assert_eq!(one("[nothing Add v]"), Some("on".to_string()));
    assert_eq!(one("[v Sub suffix]"), Some("[v Sub suffix]".to_string()));
    assert_eq!(one("[v Add suffix]ab[cd"), Some("on_stdabab[cd".to_string()), "the text before an open bracket comes twice");
    assert_eq!(one("plain"), None);
    assert_eq!(t.try_resolve_pattern_with_vars(2, "a[suffix]"), Some("a_std".to_string()));
    assert_eq!(t.try_resolve_pattern_with_vars(2, "[src.suffix]b[x]"), Some("_stdb[x]".to_string()));
    assert_eq!(t.try_resolve_pattern_with_vars(2, "[x]"), None);
    assert_eq!(t.try_resolve_pattern_with_vars(2, "[suffix][x"), None);
}

// ── Extraction ───────────────────────────────────────────────────────

fn compass() -> Compass {
    Compass {
        cardinals: vec![Dir::South, Dir::North],
        all: vec![Dir::South, Dir::North, Dir::Northeast],
    }
}

fn state(name: &str, dirs: Dirs, frames: Frames) -> IconState {
    IconState { name: name.to_string(), dirs, frames }
}

fn icon() -> Icon {
    Icon {
        states: vec![
            state("closed", Dirs::One, Frames::One),
            state("open", Dirs::Four, Frames::Count(2)),
            state("fill_open", Dirs::One, Frames::Delays(2)),
            state("always", Dirs::Eight, Frames::One),
        ],
        width: 32,
        height: 48,
    }
}

#[test]
fn every_frame_and_direction_is_cut_out() {
    let files = |first: bool| -> Vec<String> {
        plan_sprites(&icon(), &compass(), first).into_iter().map(|j| j.file_name).collect()
    };
    assert_eq!(
        files(true),
        vec![
            "closed_south.png",
            "open_south.png",
            "open_north.png",
            "fill_open_south.png",
            "always_south.png",
            "always_north.png",
            "always_northeast.png",
        ]
    );
    assert_eq!(
        files(false)[1..7].to_vec(),
        vec![
            "open_south_f0.png",
            "open_south_f1.png",
            "open_north_f0.png",
            "open_north_f1.png",
            "fill_open_south_f0.png",
            "fill_open_south_f1.png",
        ]
    );
    let jobs = plan_sprites(&icon(), &compass(), false);
    let entry = sprite_entry("icons/door.dmi", &icon(), &jobs[2]);
    assert_eq!(entry.file, "sprites/icons__door/open_south_f1.png");
    assert_eq!(entry.dmi_source, "icons/door.dmi");
    assert_eq!((entry.state_name.as_str(), entry.direction.as_str(), entry.frame), ("open", "south", 1));
    assert_eq!((entry.width, entry.height), (32, 48));
    let meta = describe_dmi("icons/door.dmi", &icon());
    assert_eq!((meta.state_count, meta.sprite_dir.as_str()), (4, "sprites/icons__door"));
    assert_eq!(meta.states[3], "always");
}

#[test]
fn looks_are_drawn_frame_by_frame() {
    let info = analyze(airlock());
    let jobs = plan_composites(&info, &Some("closed".to_string()), &icon(), &compass());
    assert_eq!(jobs.len(), 5, "one for the closed look, two frames in two directions for the open one");
    assert_eq!(jobs[0].base, "closed");
    assert_eq!(jobs[0].overlays, vec![("closed".to_string(), 0), ("always".to_string(), 0)]);
    assert_eq!(
        jobs[2].overlays,
        vec![("open".to_string(), 1), ("fill_open".to_string(), 1), ("always".to_string(), 0)],
        "overlays with as many frames as the base move with it"
    );
    let drawn = vec!["open".to_string(), "always".to_string()];
    let (file, shown) = name_composite(&jobs[2], &drawn).expect("kept");
    assert_eq!(file, "open_south_f1.png");
    assert_eq!(shown, "open+open+always");
    let (_, bare) = name_composite(&jobs[2], &Vec::new()).expect("the icon has the base");
    assert_eq!(bare, "open");
    let entry = composite_entry("/obj/door", "icons/door.dmi", &icon(), &jobs[2], &file, &shown);
    assert_eq!(entry.file, "composites/obj/door/open_south_f1.png");
    assert_eq!(composite_dir("//obj/door"), "obj/door");
    assert_eq!(dir_to_string(Dir::Southwest), "southwest");
}

#[test]
fn combinations_are_drawn_where_there_are_no_looks() {
    let info = analyze(vec![adds(text("always")), when(ident("c"), vec![adds(text("missing"))])]);
    let jobs = plan_composites(&info, &None, &icon(), &compass());
    assert_eq!(jobs.len(), 2);
    assert!(matches!(jobs[1].showing, Showing::Combo(1)));
    assert_eq!(jobs[1].overlays, vec![("always".to_string(), 0)]);
    assert!(jobs[0].dir == Dir::South);
    let (file, shown) = name_composite(&jobs[0], &vec!["al ways".to_string()]).expect("kept");
    assert_eq!(file, "default_al_ways_south.png");
    assert_eq!(shown, "+al_ways");
    let many: Vec<String> = (0..4).map(|i| i.to_string()).collect();
    assert_eq!(name_composite(&jobs[1], &many).expect("kept").0, "default_combo1_south.png");
    assert!(name_composite(&jobs[0], &Vec::new()).is_none());
}
