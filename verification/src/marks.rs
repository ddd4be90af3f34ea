//! Marks on the nodes of a program, and the commands that set them.
use std::collections::{HashMap, HashSet};
use vstd::prelude::*;

verus! {

broadcast use vstd::std_specs::hash::group_hash_axioms;

/// A mark on a node.
pub struct Mark {
    pub id: u32,
    pub label: String,
}

/// The marks of a program.
pub struct Marks {
    /// The marks, in the order in which they were added.
    pub list: Vec<Mark>,
}

impl View for Marks {
    type V = Set<(u32, Seq<char>)>;

    open spec fn view(&self) -> Set<(u32, Seq<char>)> {
        Set::new(
            |m: (u32, Seq<char>)|
                exists|i: int|
                    0 <= i < self.list@.len() && (#[trigger] self.list@[i]).id == m.0
                        && self.list@[i].label@ == m.1,
        )
    }
}

impl Marks {
    /// No marks.
    pub fn new() -> (r: Marks)
        ensures
            r@ == Set::<(u32, Seq<char>)>::empty(),
    {
        let r = Marks { list: Vec::new() };
        assert(r@ =~= Set::<(u32, Seq<char>)>::empty());
        r
    }

    /// Whether the node `id` has the mark `label`.
    pub fn has_mark(&self, id: u32, label: &String) -> (r: bool)
        ensures
            r == self@.contains((id, label@)),
    {
        let mut i: usize = 0;
        while i < self.list.len()
            invariant
                i <= self.list@.len(),
                forall|k: int|
                    0 <= k < i ==> !((#[trigger] self.list@[k]).id == id && self.list@[k].label@
                        == label@),
            decreases self.list@.len() - i,
        {
            if self.list[i].id == id && self.list[i].label == *label {
                assert(self.list@[i as int].id == id);
                return true;
            }
            i += 1;
        }
        false
    }

    /// Gives the node `id` the mark `label`.
    pub fn add_mark(&mut self, id: u32, label: &String)
        ensures
            final(self)@ == old(self)@.insert((id, label@)),
            old(self).list@.is_prefix_of(final(self).list@),
    {
        let ghost before = self.list@;
        if !self.has_mark(id, label) {
            self.list.push(Mark { id, label: label.clone() });
        }
        proof {
            assert forall|m: (u32, Seq<char>)| self@.contains(m) <==> old(self)@.insert(
                (id, label@),
            ).contains(m) by {
                if old(self)@.contains(m) {
                    let i = choose|i: int|
                        0 <= i < before.len() && (#[trigger] before[i]).id == m.0
                            && before[i].label@ == m.1;
                    assert(self.list@[i].id == m.0);
                }
                if m == (id, label@) && self.list@.len() > before.len() {
                    assert(self.list@[before.len() as int].id == id);
                }
                if self@.contains(m) {
                    let i = choose|i: int|
                        0 <= i < self.list@.len() && (#[trigger] self.list@[i]).id == m.0
                            && self.list@[i].label@ == m.1;
                    if i < before.len() {
                        assert(before[i].id == m.0);
                    }
                }
            }
            assert(self@ =~= old(self)@.insert((id, label@)));
        }
    }
}

/// The class of a node: nodes of the same class must have the same type.
#[derive(Clone, Copy, Debug, PartialEq, Eq, Structural)]
pub struct ClassOf {
    pub id: u32,
    pub class: u32,
}

/// No node has two classes.
pub open spec fn classes_wf(classes: Seq<ClassOf>) -> bool {
    forall|i: int, j: int|
        0 <= i < j < classes.len() ==> (#[trigger] classes[i]).id != (#[trigger] classes[j]).id
}

/// Whether the node `id` is in the class `class`.
pub open spec fn in_class(classes: Seq<ClassOf>, id: u32, class: u32) -> bool {
    classes.contains(ClassOf { id, class })
}

/// Whether some node with the mark `label` is in the class `class`.
pub open spec fn is_related(
    marks: Set<(u32, Seq<char>)>,
    classes: Seq<ClassOf>,
    label: Seq<char>,
    class: u32,
) -> bool {
    exists|id: u32| marks.contains((id, label)) && #[trigger] in_class(classes, id, class)
}

/// The marks, together with the mark `label` on all nodes that are in a class with a node that has
/// it.
pub open spec fn with_related(
    marks: Set<(u32, Seq<char>)>,
    classes: Seq<ClassOf>,
    label: Seq<char>,
) -> Set<(u32, Seq<char>)> {
    Set::new(
        |m: (u32, Seq<char>)|
            marks.contains(m) || (m.1 == label && exists|class: u32|
                in_class(classes, m.0, class) && is_related(marks, classes, label, class)),
    )
}

/// The classes of the nodes that have the mark `label`.
fn related_classes(marks: &Marks, classes: &Vec<ClassOf>, label: &String) -> (r: HashSet<u32>)
    requires
        classes_wf(classes@),
    ensures
        forall|class: u32| #[trigger]
            r@.contains(class) <==> is_related(marks@, classes@, label@, class),
{
    let mut class_of: HashMap<u32, u32> = HashMap::new();
    let mut i: usize = 0;
    while i < classes.len()
        invariant
            i <= classes@.len(),
            classes_wf(classes@),
            forall|id: u32, class: u32|
                class_of@.contains_key(id) && class_of@[id] == class <==> #[trigger] in_class(
                    classes@.take(i as int),
                    id,
                    class,
                ),
        decreases classes@.len() - i,
    {
        let c = classes[i];
        let ghost before = class_of@;
        class_of.insert(c.id, c.class);
        proof {
            let seen = classes@.take(i as int);
            let now = classes@.take(i + 1);
            assert(now =~= seen.push(c));
            assert forall|id: u32, class: u32|
                class_of@.contains_key(id) && class_of@[id] == class <==> #[trigger] in_class(
                    now,
                    id,
                    class,
                ) by {
                let x = ClassOf { id, class };
                assert(in_class(seen, id, class) <==> before.contains_key(id) && before[id]
                    == class);
                assert(now[i as int] == c);
                if now.contains(x) {
                    let k = choose|k: int| 0 <= k < now.len() && now[k] == x;
                    if k < i {
                        assert(seen[k] == x);
                        assert(classes@[k].id != classes@[i as int].id);
                    }
                }
                if seen.contains(x) {
                    let k = choose|k: int| 0 <= k < seen.len() && seen[k] == x;
                    assert(now[k] == x);
                    assert(classes@[k].id != classes@[i as int].id);
                }
            }
        }
        i += 1;
    }
    assert(classes@.take(i as int) =~= classes@);

    let mut related: HashSet<u32> = HashSet::new();
    let mut m: usize = 0;
    while m < marks.list.len()
        invariant
            m <= marks.list@.len(),
            forall|id: u32, class: u32|
                class_of@.contains_key(id) && class_of@[id] == class <==> #[trigger] in_class(
                    classes@,
                    id,
                    class,
                ),
            forall|class: u32| #[trigger]
                related@.contains(class) <==> related_upto(
                    marks.list@,
                    classes@,
                    label@,
                    class,
                    m as int,
                ),
        decreases marks.list@.len() - m,
    {
        let ghost before = related@;
        let id = marks.list[m].id;
        if marks.list[m].label == *label {
            if let Some(cls) = class_of.get(&id) {
                related.insert(*cls);
            }
        }
        proof {
            assert forall|class: u32| #[trigger] related@.contains(class) <==> related_upto(
                marks.list@,
                classes@,
                label@,
                class,
                m + 1,
            ) by {
                assert(before.contains(class) <==> related_upto(
                    marks.list@,
                    classes@,
                    label@,
                    class,
                    m as int,
                ));
                assert(class_of@.contains_key(id) && class_of@[id] == class <==> in_class(
                    classes@,
                    id,
                    class,
                ));
                if related_upto(marks.list@, classes@, label@, class, m as int) {
                    let k = choose|k: int|
                        0 <= k < m && (#[trigger] marks.list@[k]).label@ == label@ && in_class(
                            classes@,
                            marks.list@[k].id,
                            class,
                        );
                    assert(marks.list@[k].label@ == label@);
                }
                assert(marks.list@[m as int].id == id);
            }
        }
        m += 1;
    }
    proof {
        assert forall|class: u32| #[trigger] related@.contains(class) <==> is_related(
            marks@,
            classes@,
            label@,
            class,
        ) by {
            if related@.contains(class) {
                let k = choose|k: int|
                    0 <= k < m && (#[trigger] marks.list@[k]).label@ == label@ && in_class(
                        classes@,
                        marks.list@[k].id,
                        class,
                    );
                assert(marks@.contains((marks.list@[k].id, label@)));
            }
            if is_related(marks@, classes@, label@, class) {
                let id = choose|id: u32|
                    marks@.contains((id, label@)) && #[trigger] in_class(classes@, id, class);
                let k = choose|k: int|
                    0 <= k < marks.list@.len() && (#[trigger] marks.list@[k]).id == id
                        && marks.list@[k].label@ == label@;
                assert(marks.list@[k].label@ == label@);
            }
        }
    }
    related
}

spec fn related_upto(
    list: Seq<Mark>,
    classes: Seq<ClassOf>,
    label: Seq<char>,
    class: u32,
    n: int,
) -> bool {
    exists|k: int|
        0 <= k < n && (#[trigger] list[k]).label@ == label && in_class(classes, list[k].id, class)
}

/// Puts the mark `label` on all nodes whose type is related to that of a node that has it.
pub fn mark_related_types(marks: &mut Marks, classes: &Vec<ClassOf>, label: &String)
    requires
        classes_wf(classes@),
    ensures
        final(marks)@ == with_related(old(marks)@, classes@, label@),
{
    let ghost before = marks@;
    let related = related_classes(marks, classes, label);
    let mut i: usize = 0;
    while i < classes.len()
        invariant
            i <= classes@.len(),
            forall|class: u32| #[trigger]
                related@.contains(class) <==> is_related(before, classes@, label@, class),
            forall|m: (u32, Seq<char>)| #[trigger]
                marks@.contains(m) <==> before.contains(m) || added_upto(
                    before,
                    classes@,
                    label@,
                    m,
                    i as int,
                ),
        decreases classes@.len() - i,
    {
        let ghost now = marks@;
        let c = classes[i];
        if related.contains(&c.class) {
            marks.add_mark(c.id, label);
        }
        proof {
            assert forall|m: (u32, Seq<char>)| #[trigger] marks@.contains(m) <==> before.contains(m)
                || added_upto(before, classes@, label@, m, i + 1) by {
                assert(now.contains(m) <==> before.contains(m) || added_upto(
                    before,
                    classes@,
                    label@,
                    m,
                    i as int,
                ));
                assert(related@.contains(c.class) <==> is_related(
                    before,
                    classes@,
                    label@,
                    c.class,
                ));
                if added_upto(before, classes@, label@, m, i as int) {
                    let k = choose|k: int|
                        0 <= k < i && (#[trigger] classes@[k]).id == m.0 && is_related(
                            before,
                            classes@,
                            label@,
                            classes@[k].class,
                        );
                    assert(classes@[k].id == m.0);
                }
                assert(classes@[i as int] == c);
            }
        }
        i += 1;
    }
    proof {
        assert forall|m: (u32, Seq<char>)| marks@.contains(m) <==> with_related(
            before,
            classes@,
            label@,
        ).contains(m) by {
            if added_upto(before, classes@, label@, m, i as int) {
                let k = choose|k: int|
                    0 <= k < i && (#[trigger] classes@[k]).id == m.0 && is_related(
                        before,
                        classes@,
                        label@,
                        classes@[k].class,
                    );
                assert(in_class(classes@, m.0, classes@[k].class));
            }
            if m.1 == label@ && exists|class: u32|
                in_class(classes@, m.0, class) && is_related(before, classes@, label@, class) {
                let class = choose|class: u32|
                    in_class(classes@, m.0, class) && is_related(before, classes@, label@, class);
                let k = choose|k: int|
                    0 <= k < classes@.len() && classes@[k] == (ClassOf { id: m.0, class });
                assert(classes@[k].id == m.0);
            }
        }
        assert(marks@ =~= with_related(before, classes@, label@));
    }
}

spec fn added_upto(
    marks: Set<(u32, Seq<char>)>,
    classes: Seq<ClassOf>,
    label: Seq<char>,
    m: (u32, Seq<char>),
    n: int,
) -> bool {
    m.1 == label && exists|k: int|
        0 <= k < n && (#[trigger] classes[k]).id == m.0 && is_related(
            marks,
            classes,
            label,
            classes[k].class,
        )
}

/// Marking related types again changes nothing, takes no mark away, and adds no other label.
pub proof fn law_marking_again(
    marks: Set<(u32, Seq<char>)>,
    classes: Seq<ClassOf>,
    label: Seq<char>,
)
    requires
        classes_wf(classes),
    ensures
        marks.subset_of(with_related(marks, classes, label)),
        forall|m: (u32, Seq<char>)|
            m.1 != label ==> (#[trigger] with_related(marks, classes, label).contains(m)
                <==> marks.contains(m)),
        with_related(with_related(marks, classes, label), classes, label) == with_related(
            marks,
            classes,
            label,
        ),
{
    let once = with_related(marks, classes, label);
    assert forall|class: u32| is_related(once, classes, label, class) implies is_related(
        marks,
        classes,
        label,
        class,
    ) by {
        let id = choose|id: u32|
            once.contains((id, label)) && #[trigger] in_class(classes, id, class);
        if !marks.contains((id, label)) {
            let other = choose|other: u32|
                in_class(classes, id, other) && is_related(marks, classes, label, other);
            let i = choose|i: int| 0 <= i < classes.len() && classes[i] == (ClassOf { id, class });
            let j = choose|j: int|
                0 <= j < classes.len() && classes[j] == (ClassOf { id, class: other });
            assert(i == j) by {
                if i < j {
                    assert(classes[i].id != classes[j].id);
                } else if j < i {
                    assert(classes[j].id != classes[i].id);
                }
            }
        }
    }
    let twice = with_related(once, classes, label);
    assert forall|m: (u32, Seq<char>)| twice.contains(m) implies once.contains(m) by {
        if !once.contains(m) {
            let class = choose|class: u32|
                in_class(classes, m.0, class) && is_related(once, classes, label, class);
            assert(is_related(marks, classes, label, class));
        }
    }
    assert(twice =~= once);
}

/// When a command runs.
#[derive(Clone, Copy, Debug, PartialEq, Eq, Structural)]
pub enum Phase {
    Phase1,
    Phase2,
    Phase3,
}

/// The commands on type classes.
#[derive(Clone, Copy, Debug, PartialEq, Eq, Structural)]
pub enum Command {
    /// Prints the classes.
    TestAnalysisTypeEq,
    /// Marks the nodes that are related to marked ones.
    MarkRelatedTypes,
}

/// A command with its arguments.
pub struct FuncCommand {
    pub phase: Phase,
    pub command: Command,
    /// The label of the marks that the command reads and sets, if it does.
    pub label: Option<String>,
}

/// A name that stands for a command.
pub struct Registration {
    pub name: String,
    pub command: Command,
}

/// The commands that can be called by name.
pub struct Registry {
    pub commands: Vec<Registration>,
}

impl Registry {
    /// Registers a command under a name.
    pub fn register(&mut self, name: &str, command: Command)
        ensures
            final(self).commands@.len() == old(self).commands@.len() + 1,
            final(self).commands@.drop_last() == old(self).commands@,
            final(self).commands@.last().name@ == name@,
            final(self).commands@.last().command == command,
    {
        self.commands.push(Registration { name: name.to_owned(), command });
        assert(self.commands@.drop_last() =~= old(self).commands@);
    }
}

/// Registers the commands on type classes.
pub fn register_commands(reg: &mut Registry)
    ensures
        ({
            let n = old(reg).commands@.len() as int;
            let after = final(reg).commands@;
            &&& after.len() == n + 2
            &&& after.take(n) == old(reg).commands@
            &&& after[n].name@ == "test_analysis_type_eq"@
            &&& after[n].command is TestAnalysisTypeEq
            &&& after[n + 1].name@ == "mark_related_types"@
            &&& after[n + 1].command is MarkRelatedTypes
        }),
{
    reg.register("test_analysis_type_eq", Command::TestAnalysisTypeEq);
    let ghost mid = reg.commands@;
    reg.register("mark_related_types", Command::MarkRelatedTypes);
    proof {
        let n = old(reg).commands@.len() as int;
        assert(mid == reg.commands@.drop_last());
        assert(reg.commands@[n] == mid[n]);
        assert(reg.commands@.take(n) =~= mid.drop_last());
    }
}

/// The label that a command gets from its arguments.
pub open spec fn label_of(command: Command, args: Seq<String>) -> Option<Seq<char>> {
    match command {
        Command::TestAnalysisTypeEq => None,
        Command::MarkRelatedTypes => Some(
            if args.len() > 0 {
                args[0]@
            } else {
                "target"@
            },
        ),
    }
}

impl Command {
    /// The command with the arguments `args`. Marks are labeled with the first argument, or
    /// `target` if there is none.
    pub fn build(self, args: &Vec<String>) -> (r: FuncCommand)
        ensures
            r.phase is Phase3,
            r.command == self,
            match r.label {
                Some(l) => label_of(self, args@) == Some(l@),
                None => label_of(self, args@) is None,
            },
    {
        let label = match self {
            Command::TestAnalysisTypeEq => None,
            Command::MarkRelatedTypes => {
                if args.len() > 0 {
                    Some(args[0].clone())
                } else {
                    Some("target".to_owned())
                }
            },
        };
        FuncCommand { phase: Phase::Phase3, command: self, label }
    }
}

impl FuncCommand {
    /// Runs the command on the marks of a program with the type classes `classes`.
    pub fn run(&self, marks: &mut Marks, classes: &Vec<ClassOf>)
        requires
            classes_wf(classes@),
        ensures
            final(marks)@ == match self.label {
                Some(label) => with_related(old(marks)@, classes@, label@),
                None => old(marks)@,
            },
    {
        if let Some(label) = &self.label {
            mark_related_types(marks, classes, label);
        }
    }
}

/// A node has a mark exactly if it is in the list.
pub proof fn law_marks(marks: Marks, id: u32, label: Seq<char>, i: int)
    ensures
        0 <= i < marks.list@.len() ==> marks@.contains((marks.list@[i].id, marks.list@[i].label@)),
        marks@.contains((id, label)) ==> exists|n: int|
            0 <= n < marks.list@.len() && (#[trigger] marks.list@[n]).id == id
                && marks.list@[n].label@ == label,
{
}

/// A node gets the label exactly if it is in the same class as a node that has it. No node loses a
/// mark, and none gets another label.
pub proof fn law_related_marks(
    marks: Set<(u32, Seq<char>)>,
    classes: Seq<ClassOf>,
    label: Seq<char>,
    other: Seq<char>,
    i: int,
    j: int,
    id: u32,
)
    ensures
        0 <= i < classes.len() && 0 <= j < classes.len() && classes[i].class == classes[j].class
            && marks.contains((classes[i].id, label)) ==> with_related(
            marks,
            classes,
            label,
        ).contains((classes[j].id, label)),
        marks.contains((id, other)) ==> with_related(marks, classes, label).contains((id, other)),
        with_related(marks, classes, label).contains((id, other)) && !marks.contains((id, other))
            ==> other == label && exists|m: int, n: int|
            #![trigger classes[m], classes[n]]
            0 <= m < classes.len() && 0 <= n < classes.len() && classes[m].class
                == classes[n].class && classes[n].id == id && marks.contains(
                (classes[m].id, label),
            ),
{
    if 0 <= i < classes.len() && 0 <= j < classes.len() && classes[i].class == classes[j].class
        && marks.contains((classes[i].id, label)) {
        let class = classes[i].class;
        assert(classes[i] == (ClassOf { id: classes[i].id, class }));
        assert(classes[j] == (ClassOf { id: classes[j].id, class }));
        assert(in_class(classes, classes[i].id, class));
        assert(in_class(classes, classes[j].id, class));
        assert(is_related(marks, classes, label, class));
    }
    if with_related(marks, classes, label).contains((id, other)) && !marks.contains((id, other)) {
        let class = choose|class: u32|
            in_class(classes, id, class) && is_related(marks, classes, label, class);
        let from = choose|from: u32|
            marks.contains((from, label)) && #[trigger] in_class(classes, from, class);
        let n = choose|n: int| 0 <= n < classes.len() && classes[n] == (ClassOf { id, class });
        let m = choose|m: int| 0 <= m < classes.len() && classes[m] == (ClassOf { id: from, class });
        assert(classes[m].class == classes[n].class);
    }
}

/// Only one of the commands sets marks: with the label that is its first argument, and without one,
/// the label `target`.
pub proof fn law_labels_of_commands(args: Seq<String>)
    ensures
        label_of(Command::TestAnalysisTypeEq, args) is None,
        args.len() > 0 ==> label_of(Command::MarkRelatedTypes, args) == Some(args[0]@),
        args.len() == 0 ==> label_of(Command::MarkRelatedTypes, args) == Some("target"@),
{
}

/// Classes are in order exactly if no node has two of them.
pub proof fn law_classes(classes: Seq<ClassOf>, id: u32, class: u32)
    ensures
        classes_wf(classes) <==> forall|i: int, j: int|
            0 <= i < j < classes.len() ==> (#[trigger] classes[i]).id != (#[trigger] classes[j]).id,
        in_class(classes, id, class) <==> exists|i: int|
            0 <= i < classes.len() && #[trigger] classes[i] == (ClassOf { id, class }),
{
}

} // verus!
