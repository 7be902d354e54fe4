//! The plan board: the phases of a plan, their tasks and how far they have come.
use crate::double::{nearest, percent, percentage, quotient, whole_part, LEAST};
use crate::sorting::{sort_by_key, stable_sort, stable_sort_contains, stable_sort_is_sorted_permutation};
use crate::text::{decimal, push_decimal, push_signed, signed_decimal};
use vstd::arithmetic::power2::{
    lemma2_to64, lemma2_to64_rest, lemma_pow2_pos, lemma_pow2_strictly_increases, lemma_pow2_unfold, pow2,
};
use vstd::prelude::*;

verus! {

/// How far a task has come.
#[derive(Debug, Clone, Copy, PartialEq, Eq, Structural)]
pub enum StepStatus {
    Pending,
    InProgress,
    Completed,
}

/// How far a plan has come.
#[derive(Debug, Clone, Copy, PartialEq, Eq, Structural)]
pub enum PlanStatus {
    NeedApproval,
    InProgress,
    Completed,
}

/// A phase of a plan, or a task of the phase `parent_idx`.
#[derive(Debug)]
pub struct Entity {
    pub idx: u8,
    pub parent_idx: Option<u8>,
    pub description: String,
    pub step_status: StepStatus,
}

/// A moment: whole seconds since the epoch, and the nanoseconds since then.
#[derive(Clone, Copy, Debug, PartialEq, Eq, Structural)]
pub struct Moment {
    pub secs: i64,
    pub nanos: u32,
}

/// A plan.
#[derive(Debug)]
pub struct Plan {
    pub goal: String,
    pub status: PlanStatus,
    pub started_at: Option<Moment>,
    /// The batches in which the plan is carried out; none before it is approved.
    pub completion_queue: Vec<Vec<Entity>>,
    /// The phases and tasks as they were planned.
    pub children: Vec<Entity>,
}

fn copy_entity(e: &Entity) -> (r: Entity)
    ensures
        r == *e,
{
    Entity {
        idx: e.idx,
        parent_idx: e.parent_idx,
        description: e.description.clone(),
        step_status: e.step_status,
    }
}

/// What the first `n` batches hold.
pub open spec fn batched(queue: Seq<Vec<Entity>>, n: nat) -> Seq<Entity>
    decreases n,
{
    if n == 0 {
        Seq::empty()
    } else {
        batched(queue, (n - 1) as nat) + queue[n - 1]@
    }
}

/// The phases and tasks of a plan: those of its batches, or those that were
/// planned while there are no batches.
pub open spec fn entities_of(plan: Plan) -> Seq<Entity> {
    if plan.completion_queue@.len() > 0 {
        batched(plan.completion_queue@, plan.completion_queue@.len())
    } else {
        plan.children@
    }
}

fn append_entities(out: &mut Vec<Entity>, more: &Vec<Entity>)
    ensures
        final(out)@ == old(out)@ + more@,
{
    let mut i: usize = 0;
    assert(old(out)@ + more@.take(0) =~= old(out)@);
    while i < more.len()
        invariant
            i <= more@.len(),
            out@ == old(out)@ + more@.take(i as int),
        decreases more@.len() - i,
    {
        out.push(copy_entity(&more[i]));
        assert(out@ =~= old(out)@ + more@.take(i + 1));
        i = i + 1;
    }
    assert(more@.take(i as int) =~= more@);
}

/// The phases and tasks of a plan.
pub fn collect_entities(plan: &Plan) -> (r: Vec<Entity>)
    ensures
        r@ == entities_of(*plan),
{
    let mut r: Vec<Entity> = Vec::new();
    if plan.completion_queue.len() > 0 {
        let mut i: usize = 0;
        while i < plan.completion_queue.len()
            invariant
                i <= plan.completion_queue@.len(),
                r@ == batched(plan.completion_queue@, i as nat),
            decreases plan.completion_queue@.len() - i,
        {
            append_entities(&mut r, &plan.completion_queue[i]);
            i = i + 1;
        }
    } else {
        append_entities(&mut r, &plan.children);
        assert(r@ =~= plan.children@);
    }
    r
}

/// The first `n` entities that satisfy `p`.
pub open spec fn those<'a>(s: Seq<Entity>, p: spec_fn(Entity) -> bool, n: nat) -> Seq<&'a Entity>
    decreases n,
{
    if n == 0 {
        Seq::empty()
    } else if p(s[n - 1]) {
        those(s, p, (n - 1) as nat).push(&s[n - 1])
    } else {
        those(s, p, (n - 1) as nat)
    }
}

/// Phases have no parent.
pub open spec fn is_root() -> spec_fn(Entity) -> bool {
    |e: Entity| e.parent_idx is None
}

/// The tasks of phase `pid`.
pub open spec fn child_of(pid: u8) -> spec_fn(Entity) -> bool {
    |e: Entity| e.parent_idx == Some(pid)
}

/// The number by which phases and tasks are ordered.
pub open spec fn by_idx<'a>() -> spec_fn(&'a Entity) -> int {
    |e: &'a Entity| e.idx as int
}

fn sorted<'a>(v: &Vec<&'a Entity>) -> (r: Vec<&'a Entity>)
    ensures
        r@ == stable_sort(v@, by_idx()),
{
    let idx_of = |e: &'a Entity| -> (k: i128)
        ensures
            k == e.idx,
        { e.idx as i128 };
    sort_by_key(v, idx_of, Ghost(by_idx()))
}

/// The phases, in the order of their numbers.
pub fn roots_from<'a>(entities: &'a Vec<Entity>) -> (r: Vec<&'a Entity>)
    ensures
        r@ == stable_sort(those(entities@, is_root(), entities@.len()), by_idx()),
{
    let mut v: Vec<&'a Entity> = Vec::new();
    let mut i: usize = 0;
    while i < entities.len()
        invariant
            i <= entities@.len(),
            v@ == those(entities@, is_root(), i as nat),
        decreases entities@.len() - i,
    {
        if entities[i].parent_idx.is_none() {
            v.push(&entities[i]);
        }
        i = i + 1;
    }
    sorted(&v)
}

/// The tasks of phase `pid`, in the order of their numbers.
pub fn children_of<'a>(entities: &'a Vec<Entity>, pid: u8) -> (r: Vec<&'a Entity>)
    ensures
        r@ == stable_sort(those(entities@, child_of(pid), entities@.len()), by_idx()),
{
    let mut v: Vec<&'a Entity> = Vec::new();
    let mut i: usize = 0;
    while i < entities.len()
        invariant
            i <= entities@.len(),
            v@ == those(entities@, child_of(pid), i as nat),
        decreases entities@.len() - i,
    {
        if entities[i].parent_idx == Some(pid) {
            v.push(&entities[i]);
        }
        i = i + 1;
    }
    sorted(&v)
}

/// What counts as a task: every entity of a plan without phases that have tasks,
/// else those that belong to a phase.
pub open spec fn is_task(s: Seq<Entity>) -> spec_fn(Entity) -> bool {
    if exists|i: int| 0 <= i < s.len() && (#[trigger] s[i]).parent_idx is Some {
        |e: Entity| e.parent_idx is Some
    } else {
        |e: Entity| true
    }
}

/// The tasks of a plan.
pub fn tasks_of<'a>(entities: &'a Vec<Entity>) -> (r: Vec<&'a Entity>)
    ensures
        r@ == those(entities@, is_task(entities@), entities@.len()),
        r@.len() <= entities@.len(),
{
    let mut nested = false;
    let mut k: usize = 0;
    while k < entities.len()
        invariant
            k <= entities@.len(),
            nested == exists|i: int| 0 <= i < k && (#[trigger] entities@[i]).parent_idx is Some,
        decreases entities@.len() - k,
    {
        if entities[k].parent_idx.is_some() {
            assert(entities@[k as int].parent_idx is Some);
            nested = true;
        }
        k = k + 1;
    }
    let mut v: Vec<&'a Entity> = Vec::new();
    let mut i: usize = 0;
    let ghost p = is_task(entities@);
    while i < entities.len()
        invariant
            i <= entities@.len(),
            nested == exists|i: int| 0 <= i < entities@.len() && (#[trigger] entities@[i]).parent_idx is Some,
            p == is_task(entities@),
            v@ == those(entities@, p, i as nat),
            v@.len() <= i,
        decreases entities@.len() - i,
    {
        if !nested || entities[i].parent_idx.is_some() {
            v.push(&entities[i]);
        }
        i = i + 1;
    }
    v
}

/// How many of the first `n` tasks are completed.
pub open spec fn completed_count<'a>(tasks: Seq<&'a Entity>, n: nat) -> nat
    decreases n,
{
    if n == 0 {
        0
    } else if tasks[n - 1].step_status == StepStatus::Completed {
        completed_count(tasks, (n - 1) as nat) + 1
    } else {
        completed_count(tasks, (n - 1) as nat)
    }
}

/// How many tasks are completed.
pub fn count_completed<'a>(tasks: &Vec<&'a Entity>) -> (r: usize)
    ensures
        r == completed_count(tasks@, tasks@.len()),
        r <= tasks@.len(),
{
    let mut r: usize = 0;
    let mut i: usize = 0;
    while i < tasks.len()
        invariant
            r <= i <= tasks@.len(),
            r == completed_count(tasks@, i as nat),
        decreases tasks@.len() - i,
    {
        if tasks[i].step_status == StepStatus::Completed {
            r = r + 1;
        }
        i = i + 1;
    }
    r
}

/// How much of the tasks is completed, in whole per cent that are cut off.
pub open spec fn progress(completed: nat, total: nat) -> nat {
    whole_part(percentage(completed, total))
}

/// How much of the tasks is completed, in whole per cent.
pub fn progress_pct(completed: u32, total: u32) -> (r: u64)
    ensures
        r == progress(completed as nat, total as nat),
{
    let x = percent(completed, total);
    let whole: u128 = (x.0 as u128) / x.1;
    assert(whole <= x.0) by (nonlinear_arith)
        requires
            whole == x.0 as u128 / x.1,
            x.1 > 0,
    ;
    whole as u64
}

/// The column of the board in which a phase stands.
#[derive(Debug, Clone, Copy, PartialEq, Eq, Structural)]
pub enum PhaseColumn {
    Done,
    Doing,
    Todo,
}

/// All of the tasks are completed.
pub open spec fn all_completed<'a>(kids: Seq<&'a Entity>) -> bool {
    forall|i: int| 0 <= i < kids.len() ==> (#[trigger] kids[i]).step_status == StepStatus::Completed
}

/// One of the tasks is being worked on.
pub open spec fn any_in_progress<'a>(kids: Seq<&'a Entity>) -> bool {
    exists|i: int| 0 <= i < kids.len() && (#[trigger] kids[i]).step_status == StepStatus::InProgress
}

/// Where a phase with these tasks stands: done where all of them are completed,
/// doing where one is being worked on.
pub open spec fn column_for<'a>(kids: Seq<&'a Entity>) -> PhaseColumn {
    if kids.len() > 0 && all_completed(kids) {
        PhaseColumn::Done
    } else if any_in_progress(kids) {
        PhaseColumn::Doing
    } else {
        PhaseColumn::Todo
    }
}

/// Where a phase with these tasks stands.
pub fn phase_column<'a>(kids: &Vec<&'a Entity>) -> (r: PhaseColumn)
    ensures
        r == column_for(kids@),
{
    let mut done = kids.len() > 0;
    let mut doing = false;
    let mut i: usize = 0;
    while i < kids.len()
        invariant
            i <= kids@.len(),
            done == (kids@.len() > 0 && forall|k: int|
                0 <= k < i ==> (#[trigger] kids@[k]).step_status == StepStatus::Completed),
            doing == exists|k: int| 0 <= k < i && (#[trigger] kids@[k]).step_status == StepStatus::InProgress,
        decreases kids@.len() - i,
    {
        assert(kids@[i as int].step_status == kids@[i as int].step_status);
        if kids[i].step_status != StepStatus::Completed {
            done = false;
        }
        if kids[i].step_status == StepStatus::InProgress {
            doing = true;
        }
        i = i + 1;
    }
    if done {
        PhaseColumn::Done
    } else if doing {
        PhaseColumn::Doing
    } else {
        PhaseColumn::Todo
    }
}

/// The column of phase `e` among these entities.
pub open spec fn column_of(s: Seq<Entity>, e: Entity) -> PhaseColumn {
    column_for(stable_sort(those(s, child_of(e.idx), s.len()), by_idx()))
}

/// The first `n` phases that stand in a column.
pub open spec fn in_column<'a>(s: Seq<Entity>, roots: Seq<&'a Entity>, column: PhaseColumn, n: nat) -> Seq<&'a Entity>
    decreases n,
{
    if n == 0 {
        Seq::empty()
    } else if column_of(s, *roots[n - 1]) == column {
        in_column(s, roots, column, (n - 1) as nat).push(roots[n - 1])
    } else {
        in_column(s, roots, column, (n - 1) as nat)
    }
}

/// The phases in a column of the board.
pub fn phases_in<'a>(entities: &'a Vec<Entity>, roots: &Vec<&'a Entity>, column: PhaseColumn) -> (r: Vec<&'a Entity>)
    ensures
        r@ == in_column(entities@, roots@, column, roots@.len()),
{
    let mut r: Vec<&'a Entity> = Vec::new();
    let mut i: usize = 0;
    while i < roots.len()
        invariant
            i <= roots@.len(),
            r@ == in_column(entities@, roots@, column, i as nat),
        decreases roots@.len() - i,
    {
        let kids = children_of(entities, roots[i].idx);
        if phase_column(&kids) == column {
            r.push(roots[i]);
        }
        i = i + 1;
    }
    r
}

/// The descriptions of the first `n` phases, a dot between them.
pub open spec fn joined_descriptions<'a>(roots: Seq<&'a Entity>, n: nat) -> Seq<char>
    decreases n,
{
    if n == 0 {
        Seq::empty()
    } else if n == 1 {
        roots[0].description@
    } else {
        joined_descriptions(roots, (n - 1) as nat) + " · "@ + roots[n - 1].description@
    }
}

/// The summary of a plan that waits for approval; nothing for another plan.
pub open spec fn approval_text<'a>(status: PlanStatus, roots: Seq<&'a Entity>) -> Seq<char> {
    if status == PlanStatus::NeedApproval {
        decimal(roots.len()) + " 个阶段待审批 — "@ + joined_descriptions(roots, roots.len())
    } else {
        Seq::empty()
    }
}

/// The summary of a plan that waits for approval.
pub fn approval_summary<'a>(status: PlanStatus, roots: &Vec<&'a Entity>) -> (r: String)
    ensures
        r@ == approval_text(status, roots@),
{
    let mut r = String::new();
    if status != PlanStatus::NeedApproval {
        return r;
    }
    push_decimal(&mut r, roots.len() as u64);
    r.append(" 个阶段待审批 — ");
    let ghost head = decimal(roots@.len()) + " 个阶段待审批 — "@;
    assert(r@ =~= head + joined_descriptions(roots@, 0));
    let mut i: usize = 0;
    while i < roots.len()
        invariant
            i <= roots@.len(),
            r@ == head + joined_descriptions(roots@, i as nat),
        decreases roots@.len() - i,
    {
        let ghost before = r@;
        if i > 0 {
            r.append(" · ");
        }
        r.append(roots[i].description.as_str());
        assert(r@ =~= head + joined_descriptions(roots@, (i + 1) as nat));
        i = i + 1;
    }
    r
}

/// How many tasks are completed, and of how many.
pub fn count_label(completed: u64, total: u64) -> (r: String)
    ensures
        r@ == decimal(completed as nat) + "/"@ + decimal(total as nat),
{
    let mut r = String::new();
    push_decimal(&mut r, completed);
    r.append("/");
    push_decimal(&mut r, total);
    assert(r@ =~= decimal(completed as nat) + "/"@ + decimal(total as nat));
    r
}

/// The first of the tasks from `from` on that is being worked on.
pub open spec fn current_place<'a>(tasks: Seq<&'a Entity>, from: int) -> Option<int>
    decreases tasks.len() - from,
{
    if from < 0 || from >= tasks.len() {
        None
    } else if tasks[from].step_status == StepStatus::InProgress {
        Some(from)
    } else {
        current_place(tasks, from + 1)
    }
}

/// What the board says at its foot: a sign and a text.
pub open spec fn status_line<'a>(status: PlanStatus, tasks: Seq<&'a Entity>) -> (Seq<char>, Seq<char>) {
    match current_place(tasks, 0) {
        Some(i) => ("▸"@, "task "@ + decimal(tasks[i].idx as nat) + " - "@ + tasks[i].description@),
        None => if status == PlanStatus::Completed {
            ("✓"@, "all tasks completed."@)
        } else {
            ("○"@, "waiting to start…"@)
        },
    }
}

/// What the board says at its foot.
pub fn status_line_of<'a>(status: PlanStatus, tasks: &Vec<&'a Entity>) -> (r: (&'static str, String))
    ensures
        ((r.0)@, (r.1)@) == status_line(status, tasks@),
{
    let mut i: usize = 0;
    while i < tasks.len()
        invariant
            i <= tasks@.len(),
            current_place(tasks@, 0) == current_place(tasks@, i as int),
        decreases tasks@.len() - i,
    {
        if tasks[i].step_status == StepStatus::InProgress {
            let mut text = String::new();
            text.append("task ");
            push_decimal(&mut text, tasks[i].idx as u64);
            text.append(" - ");
            text.append(tasks[i].description.as_str());
            assert(text@ =~= "task "@ + decimal(tasks@[i as int].idx as nat) + " - "@
                + tasks@[i as int].description@);
            return ("▸", text);
        }
        i = i + 1;
    }
    if status == PlanStatus::Completed {
        ("✓", "all tasks completed.".to_owned())
    } else {
        ("○", "waiting to start…".to_owned())
    }
}

/// The words for a plan's status, and the end of its style class.
pub fn plan_status_label(status: PlanStatus) -> (r: (&'static str, &'static str))
    ensures
        ((r.0)@, (r.1)@) == match status {
            PlanStatus::NeedApproval => ("need approval"@, "pending"@),
            PlanStatus::InProgress => ("in progress"@, "doing"@),
            PlanStatus::Completed => ("completed"@, "done"@),
        },
{
    match status {
        PlanStatus::NeedApproval => ("need approval", "pending"),
        PlanStatus::InProgress => ("in progress", "doing"),
        PlanStatus::Completed => ("completed", "done"),
    }
}

/// What is left of `d` seconds after the whole minutes, with the sign of `d`.
pub open spec fn odd_seconds(d: int) -> int {
    if d >= 0 {
        d % 60
    } else {
        -((-d) % 60)
    }
}

/// The nanoseconds from one moment to another.
pub open spec fn nanos_between(from: Moment, to: Moment) -> int {
    (to.secs - from.secs) * 1_000_000_000 + (to.nanos - from.nanos)
}

/// The whole seconds from one moment to another, rounded towards zero.
pub open spec fn seconds_between(from: Moment, to: Moment) -> int {
    if nanos_between(from, to) >= 0 {
        nanos_between(from, to) / 1_000_000_000
    } else {
        -(-nanos_between(from, to) / 1_000_000_000)
    }
}

/// How long something takes that takes `d` seconds.
pub open spec fn duration_text(d: int) -> Seq<char> {
    if d >= 60 {
        decimal((d / 60) as nat) + "m "@ + signed_decimal(odd_seconds(d)) + "s"@
    } else {
        signed_decimal(odd_seconds(d)) + "s"@
    }
}

/// How long a plan has been running.
pub fn elapsed(started: Option<Moment>, now: Moment) -> (r: String)
    ensures
        r@ == match started {
            Some(t) => duration_text(seconds_between(t, now)),
            None => "—"@,
        },
{
    match started {
        Some(t) => {
            let n: i128 = ((now.secs as i128) - (t.secs as i128)) * 1_000_000_000 + ((now.nanos as i128) - (
            t.nanos as i128));
            let d: i128 = if n >= 0 {
                n / 1_000_000_000
            } else {
                -((-n) / 1_000_000_000)
            };
            let mut r = String::new();
            if d >= 60 {
                push_decimal(&mut r, (d / 60) as u64);
                r.append("m ");
                push_signed(&mut r, (d % 60) as i64);
                r.append("s");
            } else {
                let s: i128 = if d >= 0 {
                    d % 60
                } else {
                    -((-d) % 60)
                };
                push_signed(&mut r, s as i64);
                r.append("s");
            }
            assert(r@ =~= duration_text(seconds_between(t, now)));
            r
        },
        None => "—".to_owned(),
    }
}

/// The style classes of a phase's card and of its dot.
pub fn card_classes(column: PhaseColumn) -> (r: (&'static str, &'static str))
    ensures
        ((r.0)@, (r.1)@) == match column {
            PhaseColumn::Done => ("plan-card--done"@, "plan-card-dot--done"@),
            PhaseColumn::Doing => ("plan-card--doing"@, "plan-card-dot--doing"@),
            PhaseColumn::Todo => ("plan-card--pending"@, "plan-card-dot--pending"@),
        },
{
    match column {
        PhaseColumn::Done => ("plan-card--done", "plan-card-dot--done"),
        PhaseColumn::Doing => ("plan-card--doing", "plan-card-dot--doing"),
        PhaseColumn::Todo => ("plan-card--pending", "plan-card-dot--pending"),
    }
}

/// The style classes of a task's dot and of its description.
pub fn sub_classes(status: StepStatus) -> (r: (&'static str, &'static str))
    ensures
        ((r.0)@, (r.1)@) == match status {
            StepStatus::Completed => ("plan-sub-dot--done"@, "plan-sub-desc--done"@),
            StepStatus::InProgress => ("plan-sub-dot--doing"@, ""@),
            StepStatus::Pending => ("plan-sub-dot--pending"@, ""@),
        },
{
    match status {
        StepStatus::Completed => ("plan-sub-dot--done", "plan-sub-desc--done"),
        StepStatus::InProgress => ("plan-sub-dot--doing", ""),
        StepStatus::Pending => ("plan-sub-dot--pending", ""),
    }
}

/// The number of a task behind the number of its phase.
pub fn sub_number(phase: u8, task: u8) -> (r: String)
    ensures
        r@ == decimal(phase as nat) + "."@ + decimal(task as nat),
{
    let mut r = String::new();
    push_decimal(&mut r, phase as u64);
    r.append(".");
    push_decimal(&mut r, task as u64);
    assert(r@ =~= decimal(phase as nat) + "."@ + decimal(task as nat));
    r
}

/// Every phase stands in exactly one column of the board.
pub proof fn every_phase_has_one_column<'a>(s: Seq<Entity>, roots: Seq<&'a Entity>, n: nat)
    requires
        n <= roots.len(),
    ensures
        in_column(s, roots, PhaseColumn::Done, n).len() + in_column(s, roots, PhaseColumn::Doing, n).len() + in_column(
            s,
            roots,
            PhaseColumn::Todo,
            n,
        ).len() == n,
    decreases n,
{
    if n > 0 {
        every_phase_has_one_column(s, roots, (n - 1) as nat);
    }
}

proof fn lemma_whole(n: nat, j: nat)
    requires
        n > 0,
        j <= 52,
    ensures
        nearest(n * pow2(j), n, pow2(j)) == (LEAST as nat, LEAST as nat),
    decreases 52 - j,
{
    let d = pow2(j);
    lemma_pow2_pos(j);
    lemma2_to64();
    assert(pow2(52) == LEAST) by {
        lemma2_to64_rest();
    }
    assert(n * d > 0) by (nonlinear_arith)
        requires
            n > 0,
            d > 0,
    ;
    if j < 52 {
        lemma_pow2_strictly_increases(j, 52);
        assert(n * d < LEAST * n) by (nonlinear_arith)
            requires
                n > 0,
                d < LEAST,
        ;
        lemma_pow2_unfold(j + 1);
        assert(n * (2 * d) == 2 * (n * d)) by (nonlinear_arith);
        lemma_whole(n, j + 1);
    } else {
        assert(n * d == LEAST * n) by (nonlinear_arith)
            requires
                d == LEAST,
        ;
        assert((LEAST * n) / (n as int) == LEAST && (LEAST * n) % (n as int) == 0) by (nonlinear_arith)
            requires
                n > 0,
        ;
    }
}

/// A plan whose tasks are all completed is shown as a hundred per cent done.
pub proof fn all_tasks_are_a_hundred_per_cent(n: nat)
    requires
        n > 0,
    ensures
        progress(n, n) == 100,
{
    lemma_whole(n, 0);
    lemma2_to64();
    assert(n * 1 == n);
    assert(quotient(n, n) == (LEAST as nat, LEAST as nat));
}

// ── the board, seen from outside ──

proof fn lemma_those<'a>(s: Seq<Entity>, p: spec_fn(Entity) -> bool, n: nat)
    requires
        n <= s.len(),
    ensures
        those::<'a>(s, p, n).map_values(|e: &'a Entity| *e) == s.take(n as int).filter(p),
    decreases n,
{
    reveal(Seq::filter);
    let t = s.take(n as int);
    let f = |e: &'a Entity| *e;
    let now = those::<'a>(s, p, n);
    if n > 0 {
        lemma_those(s, p, (n - 1) as nat);
        let before = those::<'a>(s, p, (n - 1) as nat);
        assert(t.drop_last() =~= s.take(n - 1));
        assert(t.last() == s[n - 1]);
        if p(s[n - 1]) {
            assert(now.map_values(f) =~= before.map_values(f).push(s[n - 1]));
        }
    } else {
        assert(now.map_values(f) =~= t.filter(p));
    }
}

/// What is picked out of a plan's entries are all those that are asked for, in order.
pub proof fn entries_are_picked_in_order<'a>(s: Seq<Entity>, p: spec_fn(Entity) -> bool)
    ensures
        those::<'a>(s, p, s.len()).map_values(|e: &'a Entity| *e) == s.filter(p),
{
    lemma_those(s, p, s.len());
    assert(s.take(s.len() as int) =~= s);
}

proof fn lemma_those_contains<'a>(s: Seq<Entity>, p: spec_fn(Entity) -> bool, n: nat)
    requires
        n <= s.len(),
    ensures
        forall|k: int| 0 <= k < those::<'a>(s, p, n).len() ==> p(*#[trigger] those::<'a>(s, p, n)[k]) && s.contains(
            *those::<'a>(s, p, n)[k],
        ),
        forall|i: int| 0 <= i < n && p(#[trigger] s[i]) ==> those::<'a>(s, p, n).contains(&s[i]),
    decreases n,
{
    let now = those::<'a>(s, p, n);
    if n > 0 {
        lemma_those_contains(s, p, (n - 1) as nat);
        let before = those::<'a>(s, p, (n - 1) as nat);
        assert forall|i: int| 0 <= i < n && p(#[trigger] s[i]) implies now.contains(&s[i]) by {
            if i < n - 1 {
                assert(before.contains(&s[i]));
                let k = choose|k: int| 0 <= k < before.len() && before[k] == &s[i];
                assert(now[k] == &s[i]);
            } else {
                assert(now[now.len() - 1] == &s[i]);
            }
        }
        assert(s.contains(s[n - 1]));
    }
}

/// A phase is done when it has tasks and all of them are completed, under way when one of its
/// tasks is in progress, and else to be done. Its tasks are the entries that name it as their
/// parent.
pub proof fn a_phase_stands_where_its_tasks_are(s: Seq<Entity>, e: Entity)
    ensures
        ({
            let done = (exists|i: int| 0 <= i < s.len() && (#[trigger] s[i]).parent_idx == Some(e.idx)) && forall|i: int|
                0 <= i < s.len() && (#[trigger] s[i]).parent_idx == Some(e.idx) ==> s[i].step_status == StepStatus::Completed;
            let doing = exists|i: int|
                0 <= i < s.len() && (#[trigger] s[i]).parent_idx == Some(e.idx) && s[i].step_status == StepStatus::InProgress;
            column_of(s, e) == if done {
                PhaseColumn::Done
            } else if doing {
                PhaseColumn::Doing
            } else {
                PhaseColumn::Todo
            }
        }),
{
    let p = child_of(e.idx);
    let raw = those(s, p, s.len());
    let kids = stable_sort(raw, by_idx());
    lemma_those_contains(s, p, s.len());
    stable_sort_is_sorted_permutation(raw, by_idx());
    assert forall|i: int| 0 <= i < s.len() && (#[trigger] s[i]).parent_idx == Some(e.idx) implies kids.contains(&s[i]) by {
        assert(p(s[i]));
        stable_sort_contains(raw, by_idx(), &s[i]);
    }
    assert forall|k: int| 0 <= k < kids.len() implies (#[trigger] kids[k]).parent_idx == Some(e.idx) && s.contains(*kids[k]) by {
        stable_sort_contains(raw, by_idx(), kids[k]);
        assert(kids.contains(kids[k]));
        let m = choose|m: int| 0 <= m < raw.len() && raw[m] == kids[k];
        assert(p(*raw[m]));
    }
    if exists|i: int| 0 <= i < s.len() && (#[trigger] s[i]).parent_idx == Some(e.idx) {
        let i = choose|i: int| 0 <= i < s.len() && (#[trigger] s[i]).parent_idx == Some(e.idx);
        assert(kids.contains(&s[i]));
        assert(kids.len() > 0);
    } else if kids.len() > 0 {
        let i = choose|i: int| 0 <= i < s.len() && s[i] == *kids[0];
        assert(s[i].parent_idx == Some(e.idx));
    }
    if forall|i: int| 0 <= i < s.len() && (#[trigger] s[i]).parent_idx == Some(e.idx) ==> s[i].step_status == StepStatus::Completed {
        assert forall|k: int| 0 <= k < kids.len() implies (#[trigger] kids[k]).step_status == StepStatus::Completed by {
            let i = choose|i: int| 0 <= i < s.len() && s[i] == *kids[k];
            assert(s[i].parent_idx == Some(e.idx));
        }
    } else {
        let i = choose|i: int| 0 <= i < s.len() && (#[trigger] s[i]).parent_idx == Some(e.idx) && s[i].step_status != StepStatus::Completed;
        assert(kids.contains(&s[i]));
        let k = choose|k: int| 0 <= k < kids.len() && kids[k] == &s[i];
        assert(kids[k].step_status != StepStatus::Completed);
    }
    if exists|i: int|
        0 <= i < s.len() && (#[trigger] s[i]).parent_idx == Some(e.idx) && s[i].step_status == StepStatus::InProgress {
        let i = choose|i: int|
            0 <= i < s.len() && (#[trigger] s[i]).parent_idx == Some(e.idx) && s[i].step_status == StepStatus::InProgress;
        assert(kids.contains(&s[i]));
        let k = choose|k: int| 0 <= k < kids.len() && kids[k] == &s[i];
        assert(kids[k].step_status == StepStatus::InProgress);
    } else if any_in_progress(kids) {
        let k = choose|k: int| 0 <= k < kids.len() && (#[trigger] kids[k]).step_status == StepStatus::InProgress;
        let i = choose|i: int| 0 <= i < s.len() && s[i] == *kids[k];
        assert(s[i].parent_idx == Some(e.idx));
    }
}

/// The status line names the first task in progress; without one it says that all is done, or
/// that nothing has begun.
pub proof fn the_status_line_names_the_task_in_progress<'a>(status: PlanStatus, tasks: Seq<&'a Entity>, i: int)
    ensures
        0 <= i < tasks.len() && tasks[i].step_status == StepStatus::InProgress && (forall|k: int|
            0 <= k < i ==> (#[trigger] tasks[k]).step_status != StepStatus::InProgress) ==> status_line(status, tasks) == ("▸"@, "task "@
            + decimal(tasks[i].idx as nat) + " - "@ + tasks[i].description@),
        (forall|k: int| 0 <= k < tasks.len() ==> (#[trigger] tasks[k]).step_status != StepStatus::InProgress) ==> status_line(
            status,
            tasks,
        ) == if status == PlanStatus::Completed {
            ("✓"@, "all tasks completed."@)
        } else {
            ("○"@, "waiting to start…"@)
        },
{
    lemma_current(tasks, 0);
    if 0 <= i < tasks.len() && tasks[i].step_status == StepStatus::InProgress && (forall|k: int|
        0 <= k < i ==> (#[trigger] tasks[k]).step_status != StepStatus::InProgress) {
        let p = current_place(tasks, 0);
        if p is Some {
            if p->0 < i {
                assert(tasks[p->0].step_status != StepStatus::InProgress);
            } else if i < p->0 {
                assert(tasks[i].step_status != StepStatus::InProgress);
            }
        } else {
            assert(tasks[i].step_status != StepStatus::InProgress);
        }
    }
}

proof fn lemma_current<'a>(tasks: Seq<&'a Entity>, from: int)
    requires
        0 <= from,
    ensures
        match current_place(tasks, from) {
            Some(p) => from <= p < tasks.len() && tasks[p].step_status == StepStatus::InProgress && forall|k: int|
                from <= k < p ==> (#[trigger] tasks[k]).step_status != StepStatus::InProgress,
            None => forall|k: int| from <= k < tasks.len() ==> (#[trigger] tasks[k]).step_status != StepStatus::InProgress,
        },
    decreases tasks.len() - from,
{
    if from < tasks.len() && tasks[from].step_status != StepStatus::InProgress {
        lemma_current(tasks, from + 1);
    }
}

/// A time of `m` minutes and `s` seconds is shown as such, minutes only from one on; the
/// seconds between two moments are counted whole.
pub proof fn times_are_shown_in_minutes_and_seconds(m: nat, s: nat, from: Moment, to: Moment, d: nat)
    requires
        s < 60,
    ensures
        m > 0 ==> duration_text(60 * m + s as int) == decimal(m) + "m "@ + decimal(s) + "s"@,
        duration_text(s as int) == decimal(s) + "s"@,
        to.secs - from.secs == d && to.nanos >= from.nanos && to.nanos - from.nanos < 1_000_000_000 ==> seconds_between(from, to) == d,
        to.secs - from.secs == d + 1 && to.nanos < from.nanos && from.nanos - to.nanos <= 1_000_000_000 ==> seconds_between(from, to) == d,
{
    let t = 60 * m + s;
    assert(t / 60 == m && t % 60 == s) by (nonlinear_arith)
        requires
            t == 60 * m + s,
            s < 60,
    ;
}

/// The completed tasks are counted one by one.
pub proof fn completed_tasks_are_counted<'a>(tasks: Seq<&'a Entity>, n: nat)
    requires
        n <= tasks.len(),
    ensures
        completed_count(tasks, n) == tasks.take(n as int).filter(|t: &'a Entity| t.step_status == StepStatus::Completed).len(),
    decreases n,
{
    reveal(Seq::filter);
    let t = tasks.take(n as int);
    if n > 0 {
        completed_tasks_are_counted(tasks, (n - 1) as nat);
        assert(t.drop_last() =~= tasks.take(n - 1));
        assert(t.last() == tasks[n - 1]);
    } else {
        assert(t.filter(|t: &'a Entity| t.step_status == StepStatus::Completed) =~= Seq::<&'a Entity>::empty());
    }
}

/// A plan that is being carried out is read from its batches, one after the other; one that is
/// not yet is read as it was planned. Where some entries belong to others, those are the tasks;
/// else all entries are.
pub proof fn a_plan_is_read_from_its_batches(plan: Plan, queue: Seq<Vec<Entity>>, batch: Vec<Entity>, s: Seq<Entity>, i: int)
    ensures
        plan.completion_queue@.len() == 0 ==> entities_of(plan) == plan.children@,
        plan.completion_queue@ == queue.push(batch) ==> entities_of(plan) == batched(queue, queue.len()) + batch@,
        batched(queue.push(batch), queue.len() + 1) == batched(queue, queue.len()) + batch@,
        0 <= i < s.len() && s[i].parent_idx is Some ==> is_task(s)(s[i]),
        0 <= i < s.len() && s[i].parent_idx is None && (exists|k: int| 0 <= k < s.len() && (#[trigger] s[k]).parent_idx is Some)
            ==> !is_task(s)(s[i]),
        (forall|k: int| 0 <= k < s.len() ==> (#[trigger] s[k]).parent_idx is None) && 0 <= i < s.len() ==> is_task(s)(s[i]),
{
    lemma_batched_prefix(queue, batch, queue.len());
    assert(queue.push(batch)[queue.len() as int] == batch);
}

proof fn lemma_batched_prefix(queue: Seq<Vec<Entity>>, batch: Vec<Entity>, n: nat)
    requires
        n <= queue.len(),
    ensures
        batched(queue.push(batch), n) == batched(queue, n),
    decreases n,
{
    if n > 0 {
        lemma_batched_prefix(queue, batch, (n - 1) as nat);
        assert(queue.push(batch)[n - 1] == queue[n - 1]);
    }
}

/// A plan that waits for approval names its phases, joined by dots; any other says nothing.
pub proof fn phases_that_wait_are_named_in_order<'a>(status: PlanStatus, roots: Seq<&'a Entity>, e: &'a Entity)
    ensures
        status != PlanStatus::NeedApproval ==> approval_text(status, roots).len() == 0,
        status == PlanStatus::NeedApproval ==> approval_text(status, roots) == decimal(roots.len()) + " 个阶段待审批 — "@ + joined_descriptions(
            roots,
            roots.len(),
        ),
        joined_descriptions(seq![e], 1) == e.description@,
        roots.len() > 0 ==> joined_descriptions(roots.push(e), roots.len() + 1) == joined_descriptions(roots, roots.len()) + " · "@
            + e.description@,
{
    assert(seq![e][0] == e);
    if roots.len() > 0 {
        lemma_named_prefix(roots, e, roots.len());
        assert(roots.push(e)[roots.len() as int] == e);
    }
}

proof fn lemma_named_prefix<'a>(roots: Seq<&'a Entity>, e: &'a Entity, n: nat)
    requires
        n <= roots.len(),
    ensures
        joined_descriptions(roots.push(e), n) == joined_descriptions(roots, n),
    decreases n,
{
    if n > 0 {
        lemma_named_prefix(roots, e, (n - 1) as nat);
        assert(roots.push(e)[n - 1] == roots[n - 1]);
        assert(roots.push(e)[0] == roots[0]);
    }
}

/// The phases come in the order of their numbers.
pub proof fn phases_come_in_the_order_of_their_numbers<'a>(s: Seq<Entity>, i: int, j: int)
    requires
        0 <= i <= j < stable_sort(those::<'a>(s, is_root(), s.len()), by_idx()).len(),
    ensures
        stable_sort(those::<'a>(s, is_root(), s.len()), by_idx())[i].idx <= stable_sort(those::<'a>(s, is_root(), s.len()), by_idx())[j].idx,
        stable_sort(those::<'a>(s, is_root(), s.len()), by_idx())[i].parent_idx is None,
{
    let raw = those::<'a>(s, is_root(), s.len());
    let r = stable_sort(raw, by_idx());
    stable_sort_is_sorted_permutation(raw, by_idx());
    lemma_those_contains(s, is_root(), s.len());
    let key = by_idx::<'a>();
    assert(key(r[i]) <= key(r[j]));
    stable_sort_contains(raw, by_idx(), r[i]);
    assert(r.contains(r[i]));
    let m = choose|m: int| 0 <= m < raw.len() && raw[m] == r[i];
    assert(is_root()(*raw[m]));
}

} // verus!
