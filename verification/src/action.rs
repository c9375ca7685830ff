//! Turning ticked packages into package-manager commands.
//!
//! Everything goes through `yay`, which handles repository and AUR packages
//! and asks for privileges itself.
use crate::diff::{
    differences, has_name, law_applying_the_diff_matches_the_names, law_diff_is_exact,
    lemma_version_of, Category, DiffEntry, DiffEntryView, DiffKindView,
};
use crate::order::{lemma_filter_map_has, stably_sorted};
use crate::package::PackageView;
use crate::text::{decimal, join, joined, lemma_views_push, push_decimal, views};
pub use vstd::hash_set::StringHashSet;
use vstd::prelude::*;

verus! {

/// The selected packages, grouped by what is done to them.
#[derive(Debug, PartialEq, Eq)]
pub struct Plan {
    pub install: Vec<String>,
    pub upgrade: Vec<String>,
    pub remove: Vec<String>,
}

/// What a `Plan` stands for.
pub struct PlanView {
    pub install: Seq<Seq<char>>,
    pub upgrade: Seq<Seq<char>>,
    pub remove: Seq<Seq<char>>,
}

impl View for Plan {
    type V = PlanView;

    open spec fn view(&self) -> PlanView {
        PlanView {
            install: views(self.install@),
            upgrade: views(self.upgrade@),
            remove: views(self.remove@),
        }
    }
}

impl Default for Plan {
    fn default() -> (r: Self)
        ensures
            r@ == (PlanView { install: Seq::empty(), upgrade: Seq::empty(), remove: Seq::empty() }),
    {
        let plan = Plan { install: Vec::new(), upgrade: Vec::new(), remove: Vec::new() };
        proof {
            assert(views(plan.install@) =~= Seq::<Seq<char>>::empty());
            assert(views(plan.upgrade@) =~= Seq::<Seq<char>>::empty());
            assert(views(plan.remove@) =~= Seq::<Seq<char>>::empty());
        }
        plan
    }
}

/// One command to run, as data, so that it can be shown before it is run.
#[derive(Debug, PartialEq, Eq)]
pub struct PlannedCommand {
    pub description: String,
    pub program: String,
    pub args: Vec<String>,
}

/// What a `PlannedCommand` stands for.
pub struct PlannedCommandView {
    pub description: Seq<char>,
    pub program: Seq<char>,
    pub args: Seq<Seq<char>>,
}

impl View for PlannedCommand {
    type V = PlannedCommandView;

    open spec fn view(&self) -> PlannedCommandView {
        PlannedCommandView {
            description: self.description@,
            program: self.program@,
            args: views(self.args@),
        }
    }
}

impl PlannedCommandView {
    /// The command as a shell line.
    pub open spec fn display(self) -> Seq<char> {
        self.program + seq![' '] + joined(self.args, seq![' '])
    }
}

impl PlannedCommand {
    /// How the command reads as a shell line.
    pub fn display(&self) -> (r: String)
        ensures
            r@ == self@.display(),
    {
        let mut out = self.program.clone();
        out.push(' ');
        let args = join(self.args.as_slice(), " ");
        out.append(args.as_str());
        proof {
            reveal_strlit(" ");
            assert(" "@ =~= seq![' ']);
            assert(out@ =~= self@.display());
        }
        out
    }
}

/// The names of the selected entries of one category, in the order of the
/// entries.
pub open spec fn chosen(
    entries: Seq<DiffEntryView>,
    selected: Set<Seq<char>>,
    category: Category,
) -> Seq<Seq<char>> {
    entries.filter_map(
        |e: DiffEntryView|
            if selected.contains(e.name) && e.kind.category() == category {
                Some(e.name)
            } else {
                None
            },
    )
}

/// The plan for the selected entries.
pub open spec fn planned(entries: Seq<DiffEntryView>, selected: Set<Seq<char>>) -> PlanView {
    PlanView {
        install: chosen(entries, selected, Category::Install),
        upgrade: chosen(entries, selected, Category::Upgrade),
        remove: chosen(entries, selected, Category::Remove),
    }
}

/// The command that applies `flags` of `yay` to `names`.
pub open spec fn yay(
    verb: Seq<char>,
    flags: Seq<Seq<char>>,
    names: Seq<Seq<char>>,
) -> PlannedCommandView {
    PlannedCommandView {
        description: verb + seq![' '] + decimal(names.len()) + " package(s)"@,
        program: "yay"@,
        args: flags + names,
    }
}

/// The command for `names`, where there are any.
pub open spec fn yay_if_any(
    verb: Seq<char>,
    flags: Seq<Seq<char>>,
    names: Seq<Seq<char>>,
) -> Seq<PlannedCommandView> {
    if names.len() > 0 {
        seq![yay(verb, flags, names)]
    } else {
        Seq::empty()
    }
}

impl PlanView {
    /// Nothing is to be done.
    pub open spec fn is_empty(self) -> bool {
        self.install.len() == 0 && self.upgrade.len() == 0 && self.remove.len() == 0
    }

    /// The number of packages that something is done to.
    pub open spec fn total(self) -> nat {
        self.install.len() + self.upgrade.len() + self.remove.len()
    }

    /// The commands in the order in which they run. What is installed may be
    /// skipped where it is present; what is upgraded is present and may not;
    /// what is removed takes its orphaned dependencies and its configuration
    /// with it.
    pub open spec fn commands(self) -> Seq<PlannedCommandView> {
        yay_if_any("install"@, seq!["-S"@, "--needed"@], self.install) + yay_if_any(
            "upgrade"@,
            seq!["-S"@],
            self.upgrade,
        ) + yay_if_any("remove"@, seq!["-Rns"@], self.remove)
    }
}

/// The command that applies `flags` of `yay` to `names`.
fn yay_command(verb: &str, flags: Vec<String>, names: &Vec<String>) -> (r: PlannedCommand)
    ensures
        r@ == yay(verb@, views(flags@), views(names@)),
{
    let mut description = verb.to_owned();
    description.push(' ');
    push_decimal(&mut description, names.len());
    description.append(" package(s)");
    proof {
        assert(views(names@).len() == names@.len());
        assert(description@ =~= yay(verb@, views(flags@), views(names@)).description);
    }
    let ghost given = views(flags@);
    let mut args = flags;
    let mut i: usize = 0;
    proof {
        assert(views(args@) =~= given + views(names@).take(0));
    }
    while i < names.len()
        invariant
            i <= names@.len(),
            views(args@) == given + views(names@).take(i as int),
        decreases names@.len() - i,
    {
        let name = names[i].clone();
        proof {
            lemma_views_push(args@, name);
            assert((given + views(names@).take(i as int)).push(name@) =~= given + views(
                names@,
            ).take(i + 1));
        }
        args.push(name);
        i = i + 1;
    }
    proof {
        assert(views(names@).take(i as int) =~= views(names@));
    }
    PlannedCommand { description, program: "yay".to_owned(), args }
}

impl Plan {
    /// The plan for the ticked entries of the whole diff.
    pub fn from_selection(entries: &[DiffEntry], selected: &StringHashSet) -> (r: Plan)
        ensures
            r@ == planned(views(entries@), selected@),
            r@.total() <= entries@.len(),
    {
        let ghost all = views(entries@);
        let ghost f = |c: Category|
            |e: DiffEntryView|
                if selected@.contains(e.name) && e.kind.category() == c {
                    Some(e.name)
                } else {
                    None::<Seq<char>>
                };
        let mut plan = Plan::default();
        let mut i: usize = 0;
        proof {
            assert(all.take(0).filter_map(f(Category::Install)) =~= Seq::<Seq<char>>::empty());
            assert(all.take(0).filter_map(f(Category::Upgrade)) =~= Seq::<Seq<char>>::empty());
            assert(all.take(0).filter_map(f(Category::Remove)) =~= Seq::<Seq<char>>::empty());
        }
        while i < entries.len()
            invariant
                i <= entries@.len(),
                all == views(entries@),
                f == (|c: Category|
                    |e: DiffEntryView|
                        if selected@.contains(e.name) && e.kind.category() == c {
                            Some(e.name)
                        } else {
                            None::<Seq<char>>
                        }),
                plan@.install == all.take(i as int).filter_map(f(Category::Install)),
                plan@.upgrade == all.take(i as int).filter_map(f(Category::Upgrade)),
                plan@.remove == all.take(i as int).filter_map(f(Category::Remove)),
                plan@.total() <= i,
            decreases entries@.len() - i,
        {
            let entry = &entries[i];
            proof {
                assert(all[i as int] == entry@);
                all.lemma_filter_map_take_succ(f(Category::Install), i as int);
                all.lemma_filter_map_take_succ(f(Category::Upgrade), i as int);
                all.lemma_filter_map_take_succ(f(Category::Remove), i as int);
                assert(plan@.install + Seq::<Seq<char>>::empty() =~= plan@.install);
                assert(plan@.upgrade + Seq::<Seq<char>>::empty() =~= plan@.upgrade);
                assert(plan@.remove + Seq::<Seq<char>>::empty() =~= plan@.remove);
            }
            if selected.contains(entry.name.as_str()) {
                let name = entry.name.clone();
                proof {
                    lemma_views_push(plan.install@, name);
                    lemma_views_push(plan.upgrade@, name);
                    lemma_views_push(plan.remove@, name);
                    assert(plan@.install + seq![name@] =~= plan@.install.push(name@));
                    assert(plan@.upgrade + seq![name@] =~= plan@.upgrade.push(name@));
                    assert(plan@.remove + seq![name@] =~= plan@.remove.push(name@));
                }
                match entry.kind.category() {
                    Category::Install => plan.install.push(name),
                    Category::Upgrade => plan.upgrade.push(name),
                    Category::Remove => plan.remove.push(name),
                }
            }
            i = i + 1;
        }
        proof {
            assert(all.take(i as int) =~= all);
            assert(plan@ =~= planned(all, selected@));
        }
        plan
    }

    /// Tells whether nothing is to be done.
    pub fn is_empty(&self) -> (r: bool)
        ensures
            r == self@.is_empty(),
    {
        self.install.len() == 0 && self.upgrade.len() == 0 && self.remove.len() == 0
    }

    /// The number of packages in the plan.
    pub fn total(&self) -> (r: usize)
        requires
            self@.total() <= usize::MAX,
        ensures
            r == self@.total(),
    {
        self.install.len() + self.upgrade.len() + self.remove.len()
    }

    /// The commands of this plan in the order in which they run.
    pub fn commands(&self) -> (r: Vec<PlannedCommand>)
        ensures
            views(r@) == self@.commands(),
    {
        let mut cmds: Vec<PlannedCommand> = Vec::new();
        if self.install.len() > 0 {
            let mut flags: Vec<String> = Vec::new();
            flags.push("-S".to_owned());
            flags.push("--needed".to_owned());
            proof {
                assert(views(flags@) =~= seq!["-S"@, "--needed"@]);
            }
            cmds.push(yay_command("install", flags, &self.install));
        }
        proof {
            assert(views(cmds@) =~= yay_if_any(
                "install"@,
                seq!["-S"@, "--needed"@],
                self@.install,
            ));
        }
        let ghost first = views(cmds@);
        if self.upgrade.len() > 0 {
            let mut flags: Vec<String> = Vec::new();
            flags.push("-S".to_owned());
            proof {
                assert(views(flags@) =~= seq!["-S"@]);
            }
            cmds.push(yay_command("upgrade", flags, &self.upgrade));
        }
        proof {
            assert(views(cmds@) =~= first + yay_if_any("upgrade"@, seq!["-S"@], self@.upgrade));
        }
        let ghost second = views(cmds@);
        if self.remove.len() > 0 {
            let mut flags: Vec<String> = Vec::new();
            flags.push("-Rns".to_owned());
            proof {
                assert(views(flags@) =~= seq!["-Rns"@]);
            }
            cmds.push(yay_command("remove", flags, &self.remove));
        }
        proof {
            assert(views(cmds@) =~= second + yay_if_any("remove"@, seq!["-Rns"@], self@.remove));
        }
        cmds
    }
}

// --- running a plan ----------------------------------------------------------
/// What came of a command.
#[derive(Debug, Clone, PartialEq, Eq)]
pub enum Outcome {
    /// It ran and succeeded.
    Succeeded,
    /// It ran and failed.
    Failed,
    /// It could not be started; the text is the operating system's.
    NotStarted(String),
}

/// What an `Outcome` stands for.
pub enum OutcomeView {
    Succeeded,
    Failed,
    NotStarted(Seq<char>),
}

impl View for Outcome {
    type V = OutcomeView;

    open spec fn view(&self) -> OutcomeView {
        match self {
            Outcome::Succeeded => OutcomeView::Succeeded,
            Outcome::Failed => OutcomeView::Failed,
            Outcome::NotStarted(error) => OutcomeView::NotStarted(error@),
        }
    }
}

/// The next thing to do when a plan is run.
#[derive(Debug, PartialEq, Eq)]
pub enum Step {
    /// Print the banner and run the command.
    Run { banner: String, command: PlannedCommand },
    /// A command failed: print the notice and stop, without an error.
    Halt { notice: String },
    /// A command could not be started: stop with its error.
    Abort { error: String },
    /// All commands have run.
    Done,
}

/// What a `Step` stands for.
pub enum StepView {
    Run { banner: Seq<char>, command: PlannedCommandView },
    Halt { notice: Seq<char> },
    Abort { error: Seq<char> },
    Done,
}

impl View for Step {
    type V = StepView;

    open spec fn view(&self) -> StepView {
        match self {
            Step::Run { banner, command } => StepView::Run { banner: banner@, command: command@ },
            Step::Halt { notice } => StepView::Halt { notice: notice@ },
            Step::Abort { error } => StepView::Abort { error: error@ },
            Step::Done => StepView::Done,
        }
    }
}

impl PlannedCommandView {
    /// The line that announces the command.
    pub open spec fn banner(self) -> Seq<char> {
        "\n[pkgsync] "@ + self.description + " → "@ + self.display()
    }

    /// The line that reports that the command failed.
    pub open spec fn notice(self) -> Seq<char> {
        "[pkgsync] `"@ + self.display() + "` failed — stopping."@
    }
}

impl PlannedCommand {
    /// The line that announces the command.
    fn banner(&self) -> (r: String)
        ensures
            r@ == self@.banner(),
    {
        let mut out = "\n[pkgsync] ".to_owned();
        out.append(self.description.as_str());
        out.append(" → ");
        let line = self.display();
        out.append(line.as_str());
        out
    }

    /// The line that reports that the command failed.
    fn notice(&self) -> (r: String)
        ensures
            r@ == self@.notice(),
    {
        let mut out = "[pkgsync] `".to_owned();
        let line = self.display();
        out.append(line.as_str());
        out.append("` failed — stopping.");
        out
    }
}

/// The number of commands that succeeded before the first that did not.
pub open spec fn successes(outcomes: Seq<OutcomeView>) -> nat
    decreases outcomes.len(),
{
    if outcomes.len() == 0 || !(outcomes[0] is Succeeded) {
        0
    } else {
        1 + successes(outcomes.drop_first())
    }
}

impl PlanView {
    /// What comes next after the commands so far went as `outcomes` says.
    pub open spec fn next_step(self, outcomes: Seq<OutcomeView>) -> StepView {
        let n = successes(outcomes);
        if n >= self.commands().len() {
            StepView::Done
        } else if n < outcomes.len() {
            match outcomes[n as int] {
                OutcomeView::NotStarted(error) => StepView::Abort { error },
                _ => StepView::Halt { notice: self.commands()[n as int].notice() },
            }
        } else {
            StepView::Run {
                banner: self.commands()[n as int].banner(),
                command: self.commands()[n as int],
            }
        }
    }
}

/// The leading successes are exactly as many as `successes` says.
pub proof fn lemma_successes_unique(outcomes: Seq<OutcomeView>, n: nat)
    requires
        n <= outcomes.len(),
        n < outcomes.len() ==> !(outcomes[n as int] is Succeeded),
        forall|i: int| 0 <= i < n ==> (#[trigger] outcomes[i]) is Succeeded,
    ensures
        successes(outcomes) == n,
    decreases outcomes.len(),
{
    if n > 0 {
        let rest = outcomes.drop_first();
        assert(outcomes[0] is Succeeded);
        assert forall|i: int| 0 <= i < n - 1 implies (#[trigger] rest[i]) is Succeeded by {
            assert(outcomes[i + 1] is Succeeded);
        }
        lemma_successes_unique(rest, (n - 1) as nat);
    }
}

impl Plan {
    /// Says what to do next when the plan is run: the commands run one after
    /// the other, and the first that fails or cannot be started is the last.
    /// `outcomes` says what came of each command so far. Only a command that
    /// could not be started makes the run end with an error.
    pub fn execute(&self, outcomes: &[Outcome]) -> (r: Step)
        ensures
            r@ == self@.next_step(views(outcomes@)),
    {
        let ghost all = views(outcomes@);
        let mut cmds = self.commands();
        let mut n: usize = 0;
        while n < outcomes.len() && matches!(outcomes[n], Outcome::Succeeded)
            invariant
                n <= outcomes@.len(),
                all == views(outcomes@),
                forall|i: int| 0 <= i < n ==> (#[trigger] all[i]) is Succeeded,
            decreases outcomes@.len() - n,
        {
            n = n + 1;
        }
        proof {
            lemma_successes_unique(all, n as nat);
            assert(views(cmds@).len() == cmds@.len());
        }
        if n >= cmds.len() {
            return Step::Done;
        }
        proof {
            assert(views(cmds@)[n as int] == cmds@[n as int]@);
        }
        let command = cmds.remove(n);
        if n < outcomes.len() {
            match &outcomes[n] {
                Outcome::NotStarted(error) => Step::Abort { error: error.clone() },
                _ => Step::Halt { notice: command.notice() },
            }
        } else {
            Step::Run { banner: command.banner(), command }
        }
    }
}

// --- laws --------------------------------------------------------------------
/// A name is in a bucket exactly where a selected entry of that category has it.
pub proof fn law_buckets_hold_the_selected(
    entries: Seq<DiffEntryView>,
    selected: Set<Seq<char>>,
    category: Category,
    name: Seq<char>,
)
    ensures
        chosen(entries, selected, category).contains(name) <==> selected.contains(name) && exists|
            i: int,
        |
            0 <= i < entries.len() && (#[trigger] entries[i]).name == name
                && entries[i].kind.category() == category,
{
    let f = |e: DiffEntryView|
        if selected.contains(e.name) && e.kind.category() == category {
            Some(e.name)
        } else {
            None::<Seq<char>>
        };
    if chosen(entries, selected, category).contains(name) {
        entries.lemma_filter_map_contains(f, name);
        let e = choose|e: DiffEntryView| #[trigger] entries.contains(e) && f(e) == Some(name);
        let i = choose|i: int| 0 <= i < entries.len() && entries[i] == e;
        assert(entries[i].name == name);
    }
    if selected.contains(name) && exists|i: int|
        0 <= i < entries.len() && (#[trigger] entries[i]).name == name && entries[i].kind.category()
            == category {
        let i = choose|i: int|
            0 <= i < entries.len() && (#[trigger] entries[i]).name == name
                && entries[i].kind.category() == category;
        lemma_filter_map_has(entries, f, i);
    }
}

/// Every selected entry counts once, in one bucket.
pub proof fn law_total_counts_the_selected(entries: Seq<DiffEntryView>, selected: Set<Seq<char>>)
    ensures
        planned(entries, selected).total() == entries.filter(
            |e: DiffEntryView| selected.contains(e.name),
        ).len(),
    decreases entries.len(),
{
    reveal(Seq::filter);
    if entries.len() > 0 {
        law_total_counts_the_selected(entries.drop_last(), selected);
    }
}

/// A plan is empty exactly where it has no commands.
pub proof fn law_empty_plan_has_no_commands(plan: PlanView)
    ensures
        plan.is_empty() <==> plan.commands().len() == 0,
        plan.is_empty() <==> plan.total() == 0,
{
}

/// Nothing selected, nothing done.
pub proof fn law_empty_selection_is_an_empty_plan(entries: Seq<DiffEntryView>)
    ensures
        planned(entries, Set::empty()).is_empty(),
    decreases entries.len(),
{
    if entries.len() > 0 {
        law_empty_selection_is_an_empty_plan(entries.drop_last());
    }
}

/// Only an install is skipped where the package is present: the flag
/// `--needed` stands behind `-S` of installs and of nothing else, and removals
/// are `-Rns`.
pub proof fn law_flags_of_commands(plan: PlanView)
    ensures
        plan.install.len() > 0 ==> plan.commands()[0].args == seq!["-S"@, "--needed"@]
            + plan.install,
        plan.upgrade.len() > 0 ==> plan.commands()[yay_if_any(
            "install"@,
            seq!["-S"@, "--needed"@],
            plan.install,
        ).len() as int].args == seq!["-S"@] + plan.upgrade,
        plan.remove.len() > 0 ==> plan.commands().last().args == seq!["-Rns"@] + plan.remove,
        forall|i: int|
            0 <= i < plan.commands().len() ==> (#[trigger] plan.commands()[i]).program == "yay"@,
{
}

/// Running stops at the first failure: once a command failed or could not be
/// started, no command runs.
pub proof fn law_no_command_runs_after_a_failure(plan: PlanView, outcomes: Seq<OutcomeView>)
    requires
        exists|i: int| 0 <= i < outcomes.len() && !((#[trigger] outcomes[i]) is Succeeded),
    ensures
        !(plan.next_step(outcomes) is Run),
{
    lemma_successes(outcomes);
    let i = choose|i: int| 0 <= i < outcomes.len() && !((#[trigger] outcomes[i]) is Succeeded);
    if successes(outcomes) == outcomes.len() {
        assert(outcomes[i] is Succeeded);
    }
}

/// `successes` counts the leading successes.
proof fn lemma_successes(outcomes: Seq<OutcomeView>)
    ensures
        successes(outcomes) <= outcomes.len(),
        successes(outcomes) < outcomes.len() ==> !(outcomes[successes(
            outcomes,
        ) as int] is Succeeded),
        forall|i: int| 0 <= i < successes(outcomes) ==> (#[trigger] outcomes[i]) is Succeeded,
    decreases outcomes.len(),
{
    if outcomes.len() > 0 && outcomes[0] is Succeeded {
        let rest = outcomes.drop_first();
        lemma_successes(rest);
        assert forall|i: int| 0 <= i < successes(outcomes) implies (
        #[trigger] outcomes[i]) is Succeeded by {
            if i > 0 {
                assert(rest[i - 1] is Succeeded);
            }
        }
    }
}

/// While every command succeeds they run in order, and after the last the plan
/// is done.
pub proof fn law_commands_run_in_order(plan: PlanView, outcomes: Seq<OutcomeView>)
    requires
        forall|i: int| 0 <= i < outcomes.len() ==> (#[trigger] outcomes[i]) is Succeeded,
    ensures
        outcomes.len() < plan.commands().len() ==> (plan.next_step(outcomes) matches StepView::Run {
            command,
            ..
        } && command == plan.commands()[outcomes.len() as int]),
        outcomes.len() >= plan.commands().len() ==> plan.next_step(outcomes) is Done,
{
    lemma_successes_unique(outcomes, outcomes.len());
}

/// The first `n` commands all succeeded.
pub open spec fn all_succeeded(outcomes: Seq<OutcomeView>, n: int) -> bool {
    forall|i: int| 0 <= i < n ==> (#[trigger] outcomes[i]) is Succeeded
}

/// A run of a plan whose commands would go as `outcomes` says: a command is
/// started exactly where all earlier ones succeeded; the run ends with an error
/// exactly where a command that is started cannot be, and the error is that of
/// this command; where one fails, the run ends there without an error.
pub proof fn law_how_a_run_goes(
    plan: PlanView,
    outcomes: Seq<OutcomeView>,
    k: int,
    error: Seq<char>,
)
    requires
        outcomes.len() == plan.commands().len(),
        0 <= k <= outcomes.len(),
    ensures
        plan.next_step(outcomes.take(k)) is Run <==> k < outcomes.len() && (forall|i: int|
            0 <= i < k ==> (#[trigger] outcomes[i]) is Succeeded),
        plan.next_step(outcomes.take(k)) matches StepView::Run { command, .. } ==> command
            == plan.commands()[k],
        plan.next_step(outcomes.take(k)) == (StepView::Abort { error }) <==> exists|n: int|
            0 <= n < k && #[trigger] outcomes[n] == OutcomeView::NotStarted(error) && (forall|
                i: int,
            |
                0 <= i < n ==> (#[trigger] outcomes[i]) is Succeeded),
        plan.next_step(outcomes.take(k)) is Halt <==> exists|n: int|
            0 <= n < k && (#[trigger] outcomes[n]) is Failed && (forall|i: int|
                0 <= i < n ==> (#[trigger] outcomes[i]) is Succeeded),
        plan.next_step(outcomes.take(k)) is Done <==> k == outcomes.len() && (forall|i: int|
            0 <= i < k ==> (#[trigger] outcomes[i]) is Succeeded),
        plan.next_step(outcomes.take(k)) is Run || plan.next_step(outcomes.take(k)) is Done
            <==> all_succeeded(outcomes, k),
{
    let seen = outcomes.take(k);
    let m = successes(seen) as int;
    lemma_successes(seen);
    assert forall|i: int| 0 <= i < m implies (#[trigger] outcomes[i]) is Succeeded by {
        assert(seen[i] is Succeeded);
    }
    assert forall|n: int|
        0 <= n < k && !((#[trigger] outcomes[n]) is Succeeded) && (forall|i: int|
            0 <= i < n ==> (#[trigger] outcomes[i]) is Succeeded) implies n == m by {
        if n < m {
            assert(seen[n] is Succeeded);
        }
        if m < n {
            assert(seen[m] == outcomes[m]);
            assert(outcomes[m] is Succeeded);
        }
    }
    if m < k {
        assert(seen[m] == outcomes[m]);
        assert(!(outcomes[m] is Succeeded));
    }
}

/// A plan touches only ticked packages: it installs what only the remote machine
/// has, removes what only this one has, and upgrades what both have.
pub proof fn law_plans_touch_only_ticked_differences(
    local: Seq<PackageView>,
    remote: Seq<PackageView>,
    entries: Seq<DiffEntryView>,
    selected: Set<Seq<char>>,
    name: Seq<char>,
)
    requires
        stably_sorted::<DiffEntry>(differences(local, remote), entries),
    ensures
        ({
            let plan = planned(entries, selected);
            &&& plan.install.contains(name) ==> selected.contains(name) && has_name(remote, name)
                && !has_name(local, name)
            &&& plan.remove.contains(name) ==> selected.contains(name) && has_name(local, name)
                && !has_name(remote, name)
            &&& plan.upgrade.contains(name) ==> selected.contains(name) && has_name(local, name)
                && has_name(remote, name)
        }),
{
    lemma_bucket_is_sound(local, remote, entries, selected, Category::Install, name);
    lemma_bucket_is_sound(local, remote, entries, selected, Category::Remove, name);
    lemma_bucket_is_sound(local, remote, entries, selected, Category::Upgrade, name);
}

/// A name in a bucket is ticked and on the machines that the category says.
proof fn lemma_bucket_is_sound(
    local: Seq<PackageView>,
    remote: Seq<PackageView>,
    entries: Seq<DiffEntryView>,
    selected: Set<Seq<char>>,
    category: Category,
    name: Seq<char>,
)
    requires
        stably_sorted::<DiffEntry>(differences(local, remote), entries),
    ensures
        chosen(entries, selected, category).contains(name) ==> {
            &&& selected.contains(name)
            &&& has_name(local, name) <==> category != Category::Install
            &&& has_name(remote, name) <==> category != Category::Remove
        },
{
    law_buckets_hold_the_selected(entries, selected, category, name);
    if chosen(entries, selected, category).contains(name) {
        let i = choose|i: int|
            0 <= i < entries.len() && (#[trigger] entries[i]).name == name
                && entries[i].kind.category() == category;
        let e = entries[i];
        assert(entries.contains(e));
        law_diff_is_exact(local, remote, entries, e);
        lemma_version_of(local, name);
        lemma_version_of(remote, name);
        match e.kind {
            DiffKindView::Missing { remote_version } => {
                lemma_contains_has_name(remote, PackageView { name, version: remote_version });
            },
            DiffKindView::Extra { local_version } => {
                lemma_contains_has_name(local, PackageView { name, version: local_version });
            },
            DiffKindView::VersionSkew { local_version, remote_version } => {
                lemma_contains_has_name(remote, PackageView { name, version: remote_version });
            },
        }
    }
}

/// A list has the names of its packages.
proof fn lemma_contains_has_name(list: Seq<PackageView>, p: PackageView)
    requires
        list.contains(p),
    ensures
        has_name(list, p.name),
{
    let i = choose|i: int| 0 <= i < list.len() && list[i] == p;
    assert(list[i].name == p.name);
}

/// With everything ticked, what the plan installs and removes leaves this
/// machine with exactly the package names of the remote one.
pub proof fn law_ticking_everything_matches_the_names(
    local: Seq<PackageView>,
    remote: Seq<PackageView>,
    entries: Seq<DiffEntryView>,
    selected: Set<Seq<char>>,
    name: Seq<char>,
)
    requires
        stably_sorted::<DiffEntry>(differences(local, remote), entries),
        forall|i: int| 0 <= i < entries.len() ==> selected.contains((#[trigger] entries[i]).name),
    ensures
        ({
            let plan = planned(entries, selected);
            has_name(remote, name) <==> (has_name(local, name) || plan.install.contains(name))
                && !plan.remove.contains(name)
        }),
{
    law_applying_the_diff_matches_the_names(local, remote, entries, name);
    law_buckets_hold_the_selected(entries, selected, Category::Install, name);
    law_buckets_hold_the_selected(entries, selected, Category::Remove, name);
}

/// The views of plans, commands, steps and outcomes show all their parts.
pub proof fn law_action_views(plan: Plan, command: PlannedCommand, step: Step, outcome: Outcome)
    ensures
        plan@.install == views(plan.install@),
        plan@.upgrade == views(plan.upgrade@),
        plan@.remove == views(plan.remove@),
        command@.description == command.description@,
        command@.program == command.program@,
        command@.args == views(command.args@),
        step matches Step::Run { banner, command: c } ==> step@ == (StepView::Run {
            banner: banner@,
            command: c@,
        }),
        step matches Step::Halt { notice } ==> step@ == (StepView::Halt { notice: notice@ }),
        step matches Step::Abort { error } ==> step@ == (StepView::Abort { error: error@ }),
        step is Done ==> step@ is Done,
        outcome is Succeeded ==> outcome@ is Succeeded,
        outcome is Failed ==> outcome@ is Failed,
        outcome matches Outcome::NotStarted(e) ==> outcome@ == OutcomeView::NotStarted(e@),
{
}

/// One more entry of the diff adds its name to the bucket of what it is, where it
/// is ticked, and changes nothing else.
pub proof fn law_plans_grow_by_ticked_entries(
    entries: Seq<DiffEntryView>,
    e: DiffEntryView,
    selected: Set<Seq<char>>,
)
    ensures
        planned(Seq::empty(), selected).install.len() == 0,
        planned(Seq::empty(), selected).upgrade.len() == 0,
        planned(Seq::empty(), selected).remove.len() == 0,
        ({
            let before = planned(entries, selected);
            let after = planned(entries.push(e), selected);
            &&& after.install == if selected.contains(e.name) && e.kind is Missing {
                before.install.push(e.name)
            } else {
                before.install
            }
            &&& after.upgrade == if selected.contains(e.name) && e.kind is VersionSkew {
                before.upgrade.push(e.name)
            } else {
                before.upgrade
            }
            &&& after.remove == if selected.contains(e.name) && e.kind is Extra {
                before.remove.push(e.name)
            } else {
                before.remove
            }
        }),
{
    let more = entries.push(e);
    assert(more.drop_last() =~= entries);
    assert(more.last() == e);
    let before = planned(entries, selected);
    let after = planned(more, selected);
    if selected.contains(e.name) {
        match e.kind {
            DiffKindView::Missing { .. } => {
                assert(after.install =~= before.install.push(e.name));
                assert(after.upgrade =~= before.upgrade);
                assert(after.remove =~= before.remove);
            },
            DiffKindView::Extra { .. } => {
                assert(after.install =~= before.install);
                assert(after.upgrade =~= before.upgrade);
                assert(after.remove =~= before.remove.push(e.name));
            },
            DiffKindView::VersionSkew { .. } => {
                assert(after.install =~= before.install);
                assert(after.upgrade =~= before.upgrade.push(e.name));
                assert(after.remove =~= before.remove);
            },
        }
    } else {
        assert(after.install =~= before.install);
        assert(after.upgrade =~= before.upgrade);
        assert(after.remove =~= before.remove);
    }
}

/// The commands of a plan: at most one each to install, to upgrade and to remove,
/// in this order, and only for what there is. Each is `yay` with the flags of
/// what it does and all the names of its bucket behind, and says how many these
/// are.
pub proof fn law_commands_of_a_plan(plan: PlanView)
    ensures
        ({
            let cmds = plan.commands();
            let i: int = if plan.install.len() > 0 {
                1
            } else {
                0
            };
            let u: int = if plan.upgrade.len() > 0 {
                1
            } else {
                0
            };
            let r: int = if plan.remove.len() > 0 {
                1
            } else {
                0
            };
            &&& cmds.len() == i + u + r
            &&& i == 1 ==> cmds[0] == (PlannedCommandView {
                description: "install"@ + seq![' '] + decimal(plan.install.len()) + " package(s)"@,
                program: "yay"@,
                args: seq!["-S"@, "--needed"@] + plan.install,
            })
            &&& u == 1 ==> cmds[i] == (PlannedCommandView {
                description: "upgrade"@ + seq![' '] + decimal(plan.upgrade.len()) + " package(s)"@,
                program: "yay"@,
                args: seq!["-S"@] + plan.upgrade,
            })
            &&& r == 1 ==> cmds[i + u] == (PlannedCommandView {
                description: "remove"@ + seq![' '] + decimal(plan.remove.len()) + " package(s)"@,
                program: "yay"@,
                args: seq!["-Rns"@] + plan.remove,
            })
        }),
        plan.total() == plan.install.len() + plan.upgrade.len() + plan.remove.len(),
        plan.is_empty() <==> plan.install.len() == 0 && plan.upgrade.len() == 0 && plan.remove.len()
            == 0,
{
}

/// How a command reads: the program and each argument, with a space between
/// neighbours; its banner and the notice of its failure show it so.
pub proof fn law_how_a_command_reads(command: PlannedCommandView)
    ensures
        command.display() == command.program + seq![' '] + joined(command.args, seq![' ']),
        command.banner() == "\n[pkgsync] "@ + command.description + " → "@ + command.display(),
        command.notice() == "[pkgsync] `"@ + command.display() + "` failed — stopping."@,
{
}

/// What a run prints belongs to the command at hand: the banner to the one that
/// is run, the notice to the first that did not succeed. Outcomes beyond those of
/// the commands do not count.
pub proof fn law_what_a_run_prints(plan: PlanView, outcomes: Seq<OutcomeView>, n: int)
    ensures
        plan.next_step(outcomes) matches StepView::Run { banner, command } ==> outcomes.len()
            < plan.commands().len() && command == plan.commands()[outcomes.len() as int] && banner
            == command.banner(),
        plan.next_step(outcomes) matches StepView::Halt { notice } ==> (0 <= n < outcomes.len()
            && !(outcomes[n] is Succeeded) && (forall|i: int|
            0 <= i < n ==> (#[trigger] outcomes[i]) is Succeeded) ==> n < plan.commands().len()
            && notice == plan.commands()[n].notice()),
        outcomes.len() >= plan.commands().len() ==> plan.next_step(outcomes) == plan.next_step(
            outcomes.take(plan.commands().len() as int),
        ),
{
    lemma_successes(outcomes);
    if 0 <= n < outcomes.len() && !(outcomes[n] is Succeeded) && (forall|i: int|
        0 <= i < n ==> (#[trigger] outcomes[i]) is Succeeded) {
        lemma_successes_unique(outcomes, n as nat);
    }
    let len = plan.commands().len();
    if outcomes.len() >= len {
        let some = outcomes.take(len as int);
        let m = successes(outcomes);
        lemma_successes(outcomes);
        let k = if m < len {
            m
        } else {
            len
        };
        assert forall|i: int| 0 <= i < k implies (#[trigger] some[i]) is Succeeded by {
            assert(outcomes[i] is Succeeded);
        }
        lemma_successes_unique(some, k);
    }
}

} // verus!
