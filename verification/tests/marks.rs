use c2rust_analyze::marks::{
    mark_related_types, register_commands, ClassOf, Command, Marks, Phase, Registry,
};

fn classes(pairs: &[(u32, u32)]) -> Vec<ClassOf> {
    pairs.iter().map(|&(id, class)| ClassOf { id, class }).collect()
}

fn target() -> String {
    "target".to_string()
}

#[test]
fn related_nodes_are_marked() {
    let mut marks = Marks::new();
    marks.add_mark(1, &target());
    marks.add_mark(7, &"other".to_string());
    mark_related_types(
        &mut marks,
        &classes(&[(1, 10), (2, 10), (3, 20), (4, 10), (7, 20)]),
        &target(),
    );
    for id in [1, 2, 4] {
        assert!(marks.has_mark(id, &target()));
    }
    assert!(!marks.has_mark(3, &target()));
    assert!(!marks.has_mark(7, &target()));
    assert!(marks.has_mark(7, &"other".to_string()));
    assert_eq!(marks.list.len(), 4);
}

#[test]
fn marking_again_changes_nothing() {
    let all = classes(&[(1, 10), (2, 10), (3, 20)]);
    let mut marks = Marks::new();
    marks.add_mark(2, &target());
    mark_related_types(&mut marks, &all, &target());
    assert_eq!(marks.list.len(), 2);
    mark_related_types(&mut marks, &all, &target());
    assert_eq!(marks.list.len(), 2);
}

#[test]
fn node_without_a_class_relates_to_nothing() {
    let mut marks = Marks::new();
    marks.add_mark(9, &target());
    mark_related_types(&mut marks, &classes(&[(1, 10)]), &target());
    assert!(!marks.has_mark(1, &target()));
    assert!(marks.has_mark(9, &target()));
}

#[test]
fn commands_are_registered() {
    let mut reg = Registry { commands: vec![] };
    register_commands(&mut reg);
    let names: Vec<&str> = reg.commands.iter().map(|c| c.name.as_str()).collect();
    assert_eq!(names, ["test_analysis_type_eq", "mark_related_types"]);
    assert_eq!(reg.commands[0].command, Command::TestAnalysisTypeEq);
    assert_eq!(reg.commands[1].command, Command::MarkRelatedTypes);
}

#[test]
fn label_is_the_first_argument() {
    let cmd = Command::MarkRelatedTypes.build(&vec!["a".to_string(), "b".to_string()]);
    assert_eq!(cmd.phase, Phase::Phase3);
    assert_eq!(cmd.label.as_deref(), Some("a"));
    let cmd = Command::MarkRelatedTypes.build(&vec![]);
    assert_eq!(cmd.label.as_deref(), Some("target"));
    let cmd = Command::TestAnalysisTypeEq.build(&vec!["a".to_string()]);
    assert_eq!(cmd.label, None);
    assert_eq!(cmd.phase, Phase::Phase3);
}

#[test]
fn command_runs_on_its_label() {
    let all = classes(&[(1, 10), (2, 10)]);
    let mut marks = Marks::new();
    marks.add_mark(1, &"a".to_string());
    Command::MarkRelatedTypes.build(&vec![]).run(&mut marks, &all);
    assert_eq!(marks.list.len(), 1);
    Command::TestAnalysisTypeEq.build(&vec!["a".to_string()]).run(&mut marks, &all);
    assert_eq!(marks.list.len(), 1);
    Command::MarkRelatedTypes.build(&vec!["a".to_string()]).run(&mut marks, &all);
    assert!(marks.has_mark(2, &"a".to_string()));
}
