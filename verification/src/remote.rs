//! A model of the contents service, and what a run against it does.
//!
//! Nothing here is executed. The module says what the service holds as a tree,
//! what the recursive walk of that tree asks of the disk, and proves that the
//! engine, which works through an agenda one action at a time, issues exactly
//! those actions in exactly that order.

use crate::error::FetchErrorView;
use crate::fetch::{
    entry_tasks, listed, listing_tasks, request, task_action, write_action, ActionView,
    EventView, FetchView, TaskView,
};
use crate::response::{ApiObjectView, ApiResponseView};
use crate::text::child_path;
use crate::writer::delivery_of;
use vstd::prelude::*;

verus! {

/// An entry of a directory together with what its own address holds. For a file
/// entry `holds` is of no account.
pub struct RemoteEntry {
    pub node: ApiObjectView,
    pub holds: Remote,
}

/// What the service holds at one address.
pub enum Remote {
    /// One file: the service answers with the entry itself.
    File(ApiObjectView),
    /// A directory: the service answers with the listing of its entries.
    Dir(Seq<RemoteEntry>),
}

/// The entries as the service lists them.
pub open spec fn nodes_of(entries: Seq<RemoteEntry>) -> Seq<ApiObjectView> {
    entries.map_values(|entry: RemoteEntry| entry.node)
}

/// The answer of the service for an address that holds `remote`.
pub open spec fn response_of(remote: Remote) -> ApiResponseView {
    match remote {
        Remote::File(node) => ApiResponseView::Object(node),
        Remote::Dir(entries) => ApiResponseView::Array(nodes_of(entries)),
    }
}

/// Whether `service`, a function from addresses to answers, holds `remote` at
/// `url`: it answers `url` with the entry or the listing, and holds at the address
/// of every directory entry what comes with that entry.
pub open spec fn serves(
    service: spec_fn(Seq<char>) -> ApiResponseView,
    url: Seq<char>,
    remote: Remote,
) -> bool
    decreases remote,
{
    &&& service(url) == response_of(remote)
    &&& match remote {
        Remote::File(_) => true,
        Remote::Dir(entries) => forall|i: int|
            0 <= i < entries.len() && (#[trigger] entries[i]).node.is_dir() ==> serves(
                service,
                entries[i].node.url,
                entries[i].holds,
            ),
    }
}

/// Whether a file entry carries what it takes to write it: inline contents that
/// are base64, or else a download address.
pub open spec fn can_deliver(node: ApiObjectView) -> bool {
    delivery_of(node, Seq::<char>::empty()) is Ok
}

/// Whether every file in `remote` can be delivered.
pub open spec fn deliverable(remote: Remote) -> bool
    decreases remote,
{
    match remote {
        Remote::File(node) => can_deliver(node),
        Remote::Dir(entries) => forall|i: int|
            0 <= i < entries.len() ==> if (#[trigger] entries[i]).node.is_dir() {
                deliverable(entries[i].holds)
            } else {
                can_deliver(entries[i].node)
            },
    }
}

/// The tasks that the recursive walk of what an address holds goes through, the
/// directory on disk being `dest`: a file is written; the entries of a directory
/// are taken in their order, a file entry being written and a directory entry
/// being seen to, listed and walked itself before the next entry is touched.
pub open spec fn walk(remote: Remote, dest: Seq<char>) -> Seq<TaskView>
    decreases remote, 0nat,
{
    match remote {
        Remote::File(node) => seq![TaskView::Write { node, dir: dest }],
        Remote::Dir(entries) => walk_entries(entries, entries.len(), dest),
    }
}

/// The walk of the first `count` entries of a directory.
pub open spec fn walk_entries(entries: Seq<RemoteEntry>, count: nat, dest: Seq<char>) -> Seq<
    TaskView,
>
    decreases entries, count,
{
    if count == 0 || count > entries.len() {
        Seq::<TaskView>::empty()
    } else {
        let entry = entries[count - 1];
        let child = child_path(dest, entry.node.name);
        walk_entries(entries, (count - 1) as nat, dest) + if entry.node.is_dir() {
            seq![
                TaskView::Mkdir { path: child },
                TaskView::List { url: entry.node.url, dest: child },
            ] + walk(entry.holds, child)
        } else {
            seq![TaskView::Write { node: entry.node, dir: dest }]
        }
    }
}

/// The paths that exist once `action` is done, `present` being those that
/// existed before.
pub open spec fn disk_after(present: Set<Seq<char>>, action: ActionView) -> Set<Seq<char>> {
    match action {
        ActionView::CreateDir { path } => present.insert(path),
        ActionView::WriteFile { path, .. } => present.insert(path),
        ActionView::Download { path, .. } => present.insert(path),
        _ => present,
    }
}

/// What is reported of `action` where nothing goes wrong: the service's answer to
/// a request, the truth to a probe, and of anything else that it is done.
pub open spec fn outcome(
    service: spec_fn(Seq<char>) -> ApiResponseView,
    present: Set<Seq<char>>,
    action: ActionView,
) -> EventView {
    match action {
        ActionView::Request { url, .. } => EventView::Listing(service(url)),
        ActionView::Probe { path } => EventView::Exists(present.contains(path)),
        _ => EventView::Done,
    }
}

/// The actions that the engine asks for, from `state` on, where nothing goes
/// wrong: each action is performed and reported as [`outcome`] says, until the
/// engine finishes or fails. `fuel` bounds the number of actions.
pub open spec fn run(
    service: spec_fn(Seq<char>) -> ApiResponseView,
    present: Set<Seq<char>>,
    state: FetchView,
    fuel: nat,
) -> Seq<ActionView>
    decreases fuel,
{
    let action = state.action();
    if fuel == 0 {
        Seq::<ActionView>::empty()
    } else if action is Finished || action is Failed {
        seq![action]
    } else {
        seq![action] + run(
            service,
            disk_after(present, action),
            state.after(outcome(service, present, action)).settled(),
            (fuel - 1) as nat,
        )
    }
}

/// The actions by which `tasks` are carried out one after another, `present`
/// being the paths that exist before the first: a directory is probed, and
/// created only where the probe does not find it; a listing is requested; a file
/// is written or downloaded.
pub open spec fn performed(tasks: Seq<TaskView>, present: Set<Seq<char>>) -> Seq<ActionView>
    decreases tasks.len(),
{
    if tasks.len() == 0 {
        Seq::<ActionView>::empty()
    } else {
        match tasks[0] {
            TaskView::Mkdir { path } => if present.contains(path) {
                seq![ActionView::Probe { path }] + performed(tasks.skip(1), present)
            } else {
                seq![ActionView::Probe { path }, ActionView::CreateDir { path }] + performed(
                    tasks.skip(1),
                    present.insert(path),
                )
            },
            task => seq![task_action(task)] + performed(
                tasks.skip(1),
                disk_after(present, task_action(task)),
            ),
        }
    }
}

/// The tasks that the answer to the first request of a run leads through: a lone
/// file is written into `file_dir`; for a directory, `root` is seen to and the
/// directory is walked into it.
pub open spec fn root_walk(remote: Remote, root: Seq<char>, file_dir: Seq<char>) -> Seq<
    TaskView,
> {
    match remote {
        Remote::File(node) => seq![TaskView::Write { node, dir: file_dir }],
        Remote::Dir(entries) => seq![TaskView::Mkdir { path: root }] + walk(remote, root),
    }
}

/// The state in which a run starts.
pub open spec fn start(url: Seq<char>, root: Seq<char>, file_dir: Seq<char>) -> FetchView {
    FetchView { root, file_dir, agenda: seq![TaskView::Root { url }], failure: None, target: None }
}

/// A task of the agenda together with what the service holds at its address; for
/// a task that requests nothing `holds` is of no account.
struct Planned {
    task: TaskView,
    holds: Remote,
}

spec fn tasks_of(plan: Seq<Planned>) -> Seq<TaskView> {
    plan.map_values(|p: Planned| p.task)
}

/// The tasks that a planned task leads through.
spec fn unfold(planned: Planned) -> Seq<TaskView> {
    match planned.task {
        TaskView::List { url, dest } => seq![planned.task] + walk(planned.holds, dest),
        _ => seq![planned.task],
    }
}

/// The tasks that a plan leads through.
spec fn unfolded(plan: Seq<Planned>) -> Seq<TaskView>
    decreases plan.len(),
{
    if plan.len() == 0 {
        Seq::<TaskView>::empty()
    } else {
        unfold(plan[0]) + unfolded(plan.skip(1))
    }
}

/// Whether a planned task can be carried out against `service`.
spec fn sound(service: spec_fn(Seq<char>) -> ApiResponseView, planned: Planned) -> bool {
    match planned.task {
        TaskView::Root { .. } => false,
        TaskView::List { url, .. } => serves(service, url, planned.holds) && deliverable(
            planned.holds,
        ),
        TaskView::Write { node, .. } => can_deliver(node),
        _ => true,
    }
}

spec fn all_sound(service: spec_fn(Seq<char>) -> ApiResponseView, plan: Seq<Planned>) -> bool {
    forall|i: int| 0 <= i < plan.len() ==> sound(service, #[trigger] plan[i])
}

/// The number of actions that tasks take at most: two for a directory to see to,
/// one for any other.
spec fn weight(tasks: Seq<TaskView>) -> nat
    decreases tasks.len(),
{
    if tasks.len() == 0 {
        0
    } else {
        weight(tasks.skip(1)) + if tasks[0] is Mkdir {
            2nat
        } else {
            1nat
        }
    }
}

proof fn lemma_weight_concat(a: Seq<TaskView>, b: Seq<TaskView>)
    ensures
        weight(a + b) == weight(a) + weight(b),
    decreases a.len(),
{
    if a.len() == 0 {
        assert(a + b == b);
    } else {
        assert((a + b).skip(1) == a.skip(1) + b);
        lemma_weight_concat(a.skip(1), b);
    }
}

proof fn lemma_unfolded_concat(a: Seq<Planned>, b: Seq<Planned>)
    ensures
        unfolded(a + b) == unfolded(a) + unfolded(b),
    decreases a.len(),
{
    if a.len() == 0 {
        assert(a + b == b);
    } else {
        assert((a + b).skip(1) == a.skip(1) + b);
        lemma_unfolded_concat(a.skip(1), b);
    }
}

/// The plan for the first `count` entries of a listing.
spec fn entries_plan(entries: Seq<RemoteEntry>, count: nat, dest: Seq<char>) -> Seq<Planned>
    decreases count,
{
    if count == 0 || count > entries.len() {
        Seq::<Planned>::empty()
    } else {
        let entry = entries[count - 1];
        let child = child_path(dest, entry.node.name);
        entries_plan(entries, (count - 1) as nat, dest) + if entry.node.is_dir() {
            seq![
                Planned { task: TaskView::Mkdir { path: child }, holds: entry.holds },
                Planned {
                    task: TaskView::List { url: entry.node.url, dest: child },
                    holds: entry.holds,
                },
            ]
        } else {
            seq![
                Planned { task: TaskView::Write { node: entry.node, dir: dest }, holds: entry.holds },
            ]
        }
    }
}

/// The plan for a listing holds the listing's tasks, leads through the walk of
/// its entries, and can be carried out where the listing is served.
proof fn lemma_entries_plan(
    service: spec_fn(Seq<char>) -> ApiResponseView,
    url: Seq<char>,
    entries: Seq<RemoteEntry>,
    count: nat,
    dest: Seq<char>,
)
    requires
        count <= entries.len(),
        serves(service, url, Remote::Dir(entries)),
        deliverable(Remote::Dir(entries)),
    ensures
        tasks_of(entries_plan(entries, count, dest)) == listing_tasks(
            nodes_of(entries).take(count as int),
            dest,
        ),
        unfolded(entries_plan(entries, count, dest)) == walk_entries(entries, count, dest),
        all_sound(service, entries_plan(entries, count, dest)),
    decreases count,
{
    if count > 0 {
        let before = (count - 1) as nat;
        lemma_entries_plan(service, url, entries, before, dest);
        let entry = entries[count - 1];
        let child = child_path(dest, entry.node.name);
        let front = entries_plan(entries, before, dest);
        let back = entries_plan(entries, count, dest).skip(front.len() as int);
        assert(entries_plan(entries, count, dest) == front + back);
        let nodes = nodes_of(entries).take(count as int);
        assert(nodes.drop_last() == nodes_of(entries).take(before as int));
        assert(nodes.last() == entry.node);
        assert(tasks_of(back) == entry_tasks(entry.node, dest));
        assert(tasks_of(front + back) == tasks_of(front) + tasks_of(back));
        lemma_unfolded_concat(front, back);
        if entry.node.is_dir() {
            let listing = back[1];
            assert(back.skip(1) == seq![listing]);
            assert(back.skip(1).skip(1) == Seq::<Planned>::empty());
            assert(unfolded(back.skip(1).skip(1)) == Seq::<TaskView>::empty());
            assert(unfolded(back.skip(1)) == unfold(listing));
            assert(unfolded(back) == seq![TaskView::Mkdir { path: child }] + unfold(listing));
            assert(unfolded(back) == seq![
                TaskView::Mkdir { path: child },
                TaskView::List { url: entry.node.url, dest: child },
            ] + walk(entry.holds, child));
            assert(sound(service, listing));
        } else {
            assert(back.skip(1) == Seq::<Planned>::empty());
            assert(unfolded(back.skip(1)) == Seq::<TaskView>::empty());
            assert(unfold(back[0]) == seq![TaskView::Write { node: entry.node, dir: dest }]);
            assert(unfolded(back) == seq![TaskView::Write { node: entry.node, dir: dest }]);
        }
        assert forall|i: int| 0 <= i < (front + back).len() implies sound(
            service,
            #[trigger] (front + back)[i],
        ) by {
            if i < front.len() {
                assert((front + back)[i] == front[i]);
            } else {
                assert((front + back)[i] == back[i - front.len()]);
            }
        }
    } else {
        assert(nodes_of(entries).take(0) == Seq::<ApiObjectView>::empty());
        assert(tasks_of(entries_plan(entries, count, dest)) == Seq::<TaskView>::empty());
    }
}

/// A state whose agenda can be carried out is settled: its action is no failure.
proof fn lemma_settled(
    service: spec_fn(Seq<char>) -> ApiResponseView,
    state: FetchView,
    plan: Seq<Planned>,
)
    requires
        state.failure is None,
        state.agenda == tasks_of(plan),
        all_sound(service, plan),
    ensures
        !(state.action() is Failed),
        state.settled() == state,
{
    if plan.len() > 0 {
        assert(sound(service, plan[0]));
        assert(state.agenda[0] == plan[0].task);
    }
}

/// Carrying out a task that takes one action, and then the tasks after it.
proof fn lemma_performed_one(task: TaskView, tail: Seq<TaskView>, present: Set<Seq<char>>)
    requires
        !(task is Mkdir),
    ensures
        performed(seq![task] + tail, present) == seq![task_action(task)] + performed(
            tail,
            disk_after(present, task_action(task)),
        ),
{
    assert((seq![task] + tail).skip(1) == tail);
}

/// Seeing to a directory, and then the tasks after it.
proof fn lemma_performed_mkdir(path: Seq<char>, tail: Seq<TaskView>, present: Set<Seq<char>>)
    ensures
        performed(seq![TaskView::Mkdir { path }] + tail, present) == if present.contains(path) {
            seq![ActionView::Probe { path }] + performed(tail, present)
        } else {
            seq![ActionView::Probe { path }, ActionView::CreateDir { path }] + performed(
                tail,
                present.insert(path),
            )
        },
{
    assert((seq![TaskView::Mkdir { path }] + tail).skip(1) == tail);
}

/// From a state whose agenda can be carried out, the engine asks for the actions
/// that carry out what the agenda leads through, and then finishes.
proof fn lemma_run(
    service: spec_fn(Seq<char>) -> ApiResponseView,
    present: Set<Seq<char>>,
    state: FetchView,
    plan: Seq<Planned>,
    fuel: nat,
)
    requires
        state.failure is None,
        state.agenda == tasks_of(plan),
        all_sound(service, plan),
        fuel > weight(unfolded(plan)),
    ensures
        run(service, present, state, fuel) == performed(unfolded(plan), present)
            + seq![ActionView::Finished],
    decreases fuel,
{
    lemma_settled(service, state, plan);
    if plan.len() == 0 {
        assert(state.agenda.len() == 0);
    } else {
        let top = plan[0];
        let rest = plan.skip(1);
        let tail = unfolded(rest);
        assert(sound(service, top));
        assert(state.agenda[0] == top.task);
        assert(state.agenda.skip(1) == tasks_of(rest));
        assert(all_sound(service, rest)) by {
            assert forall|i: int| 0 <= i < rest.len() implies sound(service, #[trigger] rest[i]) by {
                assert(rest[i] == plan[i + 1]);
            }
        }
        let action = state.action();
        let after = state.after(outcome(service, present, action));
        let disk = disk_after(present, action);
        lemma_weight_concat(unfold(top), tail);
        match top.task {
            TaskView::Root { .. } => {},
            TaskView::List { url, dest } => {
                let holds = top.holds;
                let head = match holds {
                    Remote::File(node) => seq![
                        Planned { task: TaskView::Write { node, dir: dest }, holds },
                    ],
                    Remote::Dir(entries) => entries_plan(entries, entries.len(), dest),
                };
                assert(tasks_of(head) == listed(response_of(holds), dest)->Ok_0 && unfolded(head)
                    == walk(holds, dest) && all_sound(service, head)) by {
                    match holds {
                        Remote::File(node) => {
                            assert(head.skip(1) == Seq::<Planned>::empty());
                            assert(unfolded(head.skip(1)) == Seq::<TaskView>::empty());
                            assert(unfolded(head) == unfold(head[0]));
                        },
                        Remote::Dir(entries) => {
                            lemma_entries_plan(service, url, entries, entries.len(), dest);
                            assert(nodes_of(entries).take(entries.len() as int) == nodes_of(
                                entries,
                            ));
                        },
                    }
                }
                let next_plan = head + rest;
                assert(after.agenda == tasks_of(next_plan));
                assert(all_sound(service, next_plan)) by {
                    assert forall|i: int| 0 <= i < next_plan.len() implies sound(
                        service,
                        #[trigger] next_plan[i],
                    ) by {
                        if i < head.len() {
                            assert(next_plan[i] == head[i]);
                        } else {
                            assert(next_plan[i] == rest[i - head.len()]);
                        }
                    }
                }
                lemma_unfolded_concat(head, rest);
                lemma_weight_concat(walk(holds, dest), tail);
                lemma_weight_concat(seq![top.task], walk(holds, dest));
                assert(weight(seq![top.task]) == 1) by {
                    assert(seq![top.task].skip(1) == Seq::<TaskView>::empty());
                    assert(weight(seq![top.task].skip(1)) == 0);
                }
                lemma_settled(service, after, next_plan);
                lemma_run(service, disk, after, next_plan, (fuel - 1) as nat);
                assert(unfolded(plan) == seq![top.task] + (walk(holds, dest) + tail));
                lemma_performed_one(top.task, walk(holds, dest) + tail, present);
            },
            TaskView::Mkdir { path } => {
                assert(weight(unfold(top)) == 2) by {
                    assert(unfold(top).skip(1) == Seq::<TaskView>::empty());
                    assert(weight(unfold(top).skip(1)) == 0);
                }
                lemma_performed_mkdir(path, tail, present);
                if present.contains(path) {
                    assert(after.agenda == tasks_of(rest));
                    lemma_settled(service, after, rest);
                    lemma_run(service, disk, after, rest, (fuel - 1) as nat);
                } else {
                    let create = Planned { task: TaskView::Create { path }, holds: top.holds };
                    let next_plan = seq![create] + rest;
                    assert(after.agenda == tasks_of(next_plan));
                    assert(all_sound(service, next_plan)) by {
                        assert forall|i: int| 0 <= i < next_plan.len() implies sound(
                            service,
                            #[trigger] next_plan[i],
                        ) by {
                            if i > 0 {
                                assert(next_plan[i] == rest[i - 1]);
                            }
                        }
                    }
                    assert(next_plan.skip(1) == rest);
                    assert(unfolded(next_plan) == seq![create.task] + tail);
                    lemma_weight_concat(seq![create.task], tail);
                    assert(weight(seq![create.task]) == 1) by {
                        assert(seq![create.task].skip(1) == Seq::<TaskView>::empty());
                        assert(weight(seq![create.task].skip(1)) == 0);
                    }
                    lemma_settled(service, after, next_plan);
                    lemma_run(service, disk, after, next_plan, (fuel - 1) as nat);
                    lemma_performed_one(create.task, tail, present);
                }
            },
            _ => {
                assert(unfold(top) == seq![top.task]);
                assert(weight(unfold(top)) == 1) by {
                    assert(unfold(top).skip(1) == Seq::<TaskView>::empty());
                    assert(weight(unfold(top).skip(1)) == 0);
                }
                assert(after.agenda == tasks_of(rest));
                lemma_settled(service, after, rest);
                lemma_run(service, disk, after, rest, (fuel - 1) as nat);
                lemma_performed_one(top.task, tail, present);
            },
        }
    }
}

/// The paths that exist once `actions` are done one after another.
pub open spec fn disk_after_all(actions: Seq<ActionView>, present: Set<Seq<char>>) -> Set<
    Seq<char>,
>
    decreases actions.len(),
{
    if actions.len() == 0 {
        present
    } else {
        disk_after_all(actions.skip(1), disk_after(present, actions[0]))
    }
}

/// Whether `path` lies directly in a directory that exists.
pub open spec fn placed(path: Seq<char>, present: Set<Seq<char>>) -> bool {
    exists|dir: Seq<char>, name: Seq<char>|
        present.contains(dir) && path == #[trigger] child_path(dir, name)
}

/// Whether every directory and every file that `actions` make is made at a moment
/// at which the directory that it lies in exists.
pub open spec fn orderly(actions: Seq<ActionView>, present: Set<Seq<char>>) -> bool
    decreases actions.len(),
{
    if actions.len() == 0 {
        true
    } else {
        &&& match actions[0] {
            ActionView::CreateDir { path } => placed(path, present),
            ActionView::WriteFile { path, .. } => placed(path, present),
            ActionView::Download { path, .. } => placed(path, present),
            _ => true,
        }
        &&& orderly(actions.skip(1), disk_after(present, actions[0]))
    }
}

/// The paths that the service reports for what an address holds, the directory on
/// disk being `dest`: the path of a lone file; for a directory, the path of every
/// entry and, for an entry that is a directory, the paths reported for it in turn.
pub open spec fn reported(remote: Remote, dest: Seq<char>) -> Set<Seq<char>>
    decreases remote, 0nat,
{
    match remote {
        Remote::File(node) => set![child_path(dest, node.name)],
        Remote::Dir(entries) => reported_entries(entries, entries.len(), dest),
    }
}

/// The paths reported for the first `count` entries of a directory.
pub open spec fn reported_entries(entries: Seq<RemoteEntry>, count: nat, dest: Seq<char>) -> Set<
    Seq<char>,
>
    decreases entries, count,
{
    if count == 0 || count > entries.len() {
        Set::<Seq<char>>::empty()
    } else {
        let entry = entries[count - 1];
        let child = child_path(dest, entry.node.name);
        reported_entries(entries, (count - 1) as nat, dest).insert(child) + if entry.node.is_dir() {
            reported(entry.holds, child)
        } else {
            Set::<Seq<char>>::empty()
        }
    }
}

proof fn lemma_disk_concat(x: Seq<ActionView>, y: Seq<ActionView>, present: Set<Seq<char>>)
    ensures
        disk_after_all(x + y, present) == disk_after_all(y, disk_after_all(x, present)),
    decreases x.len(),
{
    if x.len() == 0 {
        assert(x + y == y);
    } else {
        assert((x + y).skip(1) == x.skip(1) + y);
        lemma_disk_concat(x.skip(1), y, disk_after(present, x[0]));
    }
}

proof fn lemma_orderly_concat(x: Seq<ActionView>, y: Seq<ActionView>, present: Set<Seq<char>>)
    ensures
        orderly(x + y, present) == (orderly(x, present) && orderly(
            y,
            disk_after_all(x, present),
        )),
    decreases x.len(),
{
    if x.len() == 0 {
        assert(x + y == y);
    } else {
        assert((x + y).skip(1) == x.skip(1) + y);
        lemma_orderly_concat(x.skip(1), y, disk_after(present, x[0]));
    }
}

proof fn lemma_performed_concat(a: Seq<TaskView>, b: Seq<TaskView>, present: Set<Seq<char>>)
    ensures
        performed(a + b, present) == performed(a, present) + performed(
            b,
            disk_after_all(performed(a, present), present),
        ),
    decreases a.len(),
{
    if a.len() == 0 {
        assert(a + b == b);
    } else {
        let rest = a.skip(1);
        assert((a + b).skip(1) == rest + b);
        assert((a + b)[0] == a[0]);
        match a[0] {
            TaskView::Mkdir { path } => {
                if present.contains(path) {
                    let head = seq![ActionView::Probe { path }];
                    lemma_performed_concat(rest, b, present);
                    lemma_disk_concat(head, performed(rest, present), present);
                    assert(disk_after_all(head, present) == present) by {
                        assert(disk_after_all(head.skip(1), present) == present);
                    }
                    assert(performed(a + b, present) == head + (performed(rest, present)
                        + performed(b, disk_after_all(performed(rest, present), present))));
                } else {
                    let head = seq![ActionView::Probe { path }, ActionView::CreateDir { path }];
                    let grown = present.insert(path);
                    lemma_performed_concat(rest, b, grown);
                    lemma_disk_concat(head, performed(rest, grown), present);
                    assert(disk_after_all(head, present) == grown) by {
                        assert(head.skip(1).skip(1) == Seq::<ActionView>::empty());
                        assert(disk_after_all(head.skip(1).skip(1), grown) == grown);
                        assert(disk_after_all(head.skip(1), present) == grown);
                    }
                    assert(performed(a + b, present) == head + (performed(rest, grown)
                        + performed(b, disk_after_all(performed(rest, grown), grown))));
                }
            },
            task => {
                let action = task_action(task);
                let head = seq![action];
                let grown = disk_after(present, action);
                lemma_performed_concat(rest, b, grown);
                lemma_disk_concat(head, performed(rest, grown), present);
                assert(disk_after_all(head, present) == grown) by {
                    assert(disk_after_all(head.skip(1), grown) == grown);
                }
                assert(performed(a + b, present) == head + (performed(rest, grown) + performed(
                    b,
                    disk_after_all(performed(rest, grown), grown),
                )));
            },
        }
    }
}

/// Writing one file that can be delivered makes its path, in a directory that
/// exists.
proof fn lemma_write_performed(node: ApiObjectView, dir: Seq<char>, present: Set<Seq<char>>)
    requires
        can_deliver(node),
        present.contains(dir),
    ensures
        orderly(performed(seq![TaskView::Write { node, dir }], present), present),
        disk_after_all(performed(seq![TaskView::Write { node, dir }], present), present)
            == present.insert(child_path(dir, node.name)),
{
    let task = TaskView::Write { node, dir };
    let action = task_action(task);
    let path = child_path(dir, node.name);
    lemma_performed_one(task, Seq::<TaskView>::empty(), present);
    assert(seq![task] + Seq::<TaskView>::empty() == seq![task]);
    let acts = performed(seq![task], present);
    assert(acts == seq![action]);
    assert(acts.skip(1) == Seq::<ActionView>::empty());
    assert(placed(path, present));
    assert(disk_after(present, action) == present.insert(path));
    assert(disk_after_all(acts.skip(1), present.insert(path)) == present.insert(path));
    assert(orderly(acts.skip(1), present.insert(path)));
}

/// Walking what an address holds makes the reported paths, each in a directory
/// that exists by then.
proof fn lemma_walk(remote: Remote, dest: Seq<char>, present: Set<Seq<char>>)
    requires
        deliverable(remote),
        present.contains(dest),
    ensures
        orderly(performed(walk(remote, dest), present), present),
        disk_after_all(performed(walk(remote, dest), present), present) == present + reported(
            remote,
            dest,
        ),
    decreases remote, 0nat,
{
    match remote {
        Remote::File(node) => {
            lemma_write_performed(node, dest, present);
            assert(present.insert(child_path(dest, node.name)) == present + reported(
                remote,
                dest,
            ));
        },
        Remote::Dir(entries) => {
            lemma_walk_entries(entries, entries.len(), dest, present);
        },
    }
}

proof fn lemma_walk_entries(
    entries: Seq<RemoteEntry>,
    count: nat,
    dest: Seq<char>,
    present: Set<Seq<char>>,
)
    requires
        deliverable(Remote::Dir(entries)),
        count <= entries.len(),
        present.contains(dest),
    ensures
        orderly(performed(walk_entries(entries, count, dest), present), present),
        disk_after_all(performed(walk_entries(entries, count, dest), present), present)
            == present + reported_entries(entries, count, dest),
    decreases entries, count,
{
    if count == 0 {
        assert(present + reported_entries(entries, count, dest) == present);
    } else {
        let before = (count - 1) as nat;
        let entry = entries[count - 1];
        let child = child_path(dest, entry.node.name);
        let front = walk_entries(entries, before, dest);
        lemma_walk_entries(entries, before, dest, present);
        let front_acts = performed(front, present);
        let d1 = disk_after_all(front_acts, present);
        assert(d1.contains(dest));
        if entry.node.is_dir() {
            let listing = TaskView::List { url: entry.node.url, dest: child };
            let inner = walk(entry.holds, child);
            let back = seq![TaskView::Mkdir { path: child }] + (seq![listing] + inner);
            assert(walk_entries(entries, count, dest) == front + back);
            lemma_performed_concat(front, back, present);
            let d2 = d1.insert(child);
            lemma_performed_mkdir(child, seq![listing] + inner, d1);
            lemma_performed_one(listing, inner, d2);
            lemma_walk(entry.holds, child, d2);
            let inner_acts = performed(inner, d2);
            let asked = seq![task_action(listing)];
            let head = if d1.contains(child) {
                seq![ActionView::Probe { path: child }]
            } else {
                seq![ActionView::Probe { path: child }, ActionView::CreateDir { path: child }]
            };
            if d1.contains(child) {
                assert(d2 == d1);
            }
            let back_acts = performed(back, d1);
            assert(back_acts == head + (asked + inner_acts));
            assert(placed(child, d1));
            assert(disk_after_all(head, d1) == d2 && orderly(head, d1)) by {
                if d1.contains(child) {
                    assert(head.skip(1) == Seq::<ActionView>::empty());
                    assert(disk_after_all(head.skip(1), d1) == d1);
                    assert(orderly(head.skip(1), d1));
                } else {
                    assert(head.skip(1).skip(1) == Seq::<ActionView>::empty());
                    assert(disk_after_all(head.skip(1).skip(1), d2) == d2);
                    assert(orderly(head.skip(1).skip(1), d2));
                    assert(disk_after_all(head.skip(1), d1) == d2);
                    assert(orderly(head.skip(1), d1));
                }
            }
            assert(disk_after_all(asked, d2) == d2 && orderly(asked, d2)) by {
                assert(asked.skip(1) == Seq::<ActionView>::empty());
                assert(disk_after_all(asked.skip(1), d2) == d2);
                assert(orderly(asked.skip(1), d2));
            }
            lemma_disk_concat(asked, inner_acts, d2);
            lemma_orderly_concat(asked, inner_acts, d2);
            lemma_disk_concat(head, asked + inner_acts, d1);
            lemma_orderly_concat(head, asked + inner_acts, d1);
            lemma_disk_concat(front_acts, back_acts, present);
            lemma_orderly_concat(front_acts, back_acts, present);
            assert(d2 + reported(entry.holds, child) == present + reported_entries(
                entries,
                count,
                dest,
            ));
        } else {
            let back = seq![TaskView::Write { node: entry.node, dir: dest }];
            assert(walk_entries(entries, count, dest) == front + back);
            lemma_performed_concat(front, back, present);
            lemma_write_performed(entry.node, dest, d1);
            let back_acts = performed(back, d1);
            lemma_disk_concat(front_acts, back_acts, present);
            lemma_orderly_concat(front_acts, back_acts, present);
            assert(d1.insert(child) == present + reported_entries(entries, count, dest));
        }
    }
}

/// Whether every directory that `actions` create is created at a moment at which
/// it does not exist.
pub open spec fn fresh(actions: Seq<ActionView>, present: Set<Seq<char>>) -> bool
    decreases actions.len(),
{
    if actions.len() == 0 {
        true
    } else {
        &&& actions[0] matches ActionView::CreateDir { path } ==> !present.contains(path)
        &&& fresh(actions.skip(1), disk_after(present, actions[0]))
    }
}

/// Tasks that see to directories, and create none unseen, create only what is
/// missing.
proof fn lemma_performed_fresh(tasks: Seq<TaskView>, present: Set<Seq<char>>)
    requires
        forall|i: int| 0 <= i < tasks.len() ==> !(#[trigger] tasks[i] is Create),
    ensures
        fresh(performed(tasks, present), present),
    decreases tasks.len(),
{
    if tasks.len() > 0 {
        let rest = tasks.skip(1);
        assert forall|i: int| 0 <= i < rest.len() implies !(#[trigger] rest[i] is Create) by {
            assert(rest[i] == tasks[i + 1]);
        }
        assert(!(tasks[0] is Create));
        match tasks[0] {
            TaskView::Mkdir { path } => {
                if present.contains(path) {
                    lemma_performed_fresh(rest, present);
                    let acts = seq![ActionView::Probe { path }] + performed(rest, present);
                    assert(acts.skip(1) == performed(rest, present));
                } else {
                    let grown = present.insert(path);
                    lemma_performed_fresh(rest, grown);
                    let acts = seq![ActionView::Probe { path }, ActionView::CreateDir { path }]
                        + performed(rest, grown);
                    assert(acts.skip(1).skip(1) == performed(rest, grown));
                    assert(fresh(acts.skip(1), present));
                }
            },
            task => {
                let action = task_action(task);
                let grown = disk_after(present, action);
                lemma_performed_fresh(rest, grown);
                let acts = seq![action] + performed(rest, grown);
                assert(acts.skip(1) == performed(rest, grown));
            },
        }
    }
}

/// The walk sees to directories and creates none unseen.
proof fn lemma_walk_sees_first(remote: Remote, dest: Seq<char>)
    ensures
        forall|i: int|
            0 <= i < walk(remote, dest).len() ==> !(#[trigger] walk(remote, dest)[i] is Create),
    decreases remote, 0nat,
{
    match remote {
        Remote::File(_) => {},
        Remote::Dir(entries) => {
            lemma_walk_entries_see_first(entries, entries.len(), dest);
        },
    }
}

proof fn lemma_walk_entries_see_first(entries: Seq<RemoteEntry>, count: nat, dest: Seq<char>)
    requires
        count <= entries.len(),
    ensures
        forall|i: int|
            0 <= i < walk_entries(entries, count, dest).len() ==> !(#[trigger] walk_entries(
                entries,
                count,
                dest,
            )[i] is Create),
    decreases entries, count,
{
    if count > 0 {
        let entry = entries[count - 1];
        let child = child_path(dest, entry.node.name);
        let front = walk_entries(entries, (count - 1) as nat, dest);
        lemma_walk_entries_see_first(entries, (count - 1) as nat, dest);
        let whole = walk_entries(entries, count, dest);
        if entry.node.is_dir() {
            lemma_walk_sees_first(entry.holds, child);
            let inner = walk(entry.holds, child);
            assert forall|i: int| 0 <= i < whole.len() implies !(#[trigger] whole[i] is Create) by {
                if i < front.len() {
                    assert(whole[i] == front[i]);
                } else if i >= front.len() + 2 {
                    assert(whole[i] == inner[i - front.len() - 2]);
                }
            }
        } else {
            assert forall|i: int| 0 <= i < whole.len() implies !(#[trigger] whole[i] is Create) by {
                if i < front.len() {
                    assert(whole[i] == front[i]);
                }
            }
        }
    }
}

/// Nothing is created twice.
///
/// In carrying out what the answer to the first request leads through, every
/// directory is created at a moment at which it does not exist. What exists
/// stays, so no directory is created a second time, whatever the listings name.
pub proof fn law_nothing_is_created_twice(
    remote: Remote,
    root: Seq<char>,
    file_dir: Seq<char>,
    present: Set<Seq<char>>,
)
    ensures
        fresh(performed(root_walk(remote, root, file_dir), present), present),
{
    let tasks = root_walk(remote, root, file_dir);
    match remote {
        Remote::File(_) => {},
        Remote::Dir(_) => {
            lemma_walk_sees_first(remote, root);
            let below = walk(remote, root);
            assert forall|i: int| 0 <= i < tasks.len() implies !(#[trigger] tasks[i] is Create) by {
                if i > 0 {
                    assert(tasks[i] == below[i - 1]);
                }
            }
        },
    }
    lemma_performed_fresh(tasks, present);
}

proof fn lemma_weight_bound(tasks: Seq<TaskView>)
    ensures
        weight(tasks) <= 2 * tasks.len(),
    decreases tasks.len(),
{
    if tasks.len() > 0 {
        lemma_weight_bound(tasks.skip(1));
    }
}

/// The engine does what the recursive walk does.
///
/// Let the service hold `remote` at `url`, every file in it deliverable, and let
/// nothing go wrong. Then a run that starts at `url` asks for the request of
/// `url`, then for the actions that carry out [`root_walk`] task by task, in its
/// order, and then finishes. `fuel` only has to allow for that many actions.
pub proof fn law_run_is_the_walk(
    service: spec_fn(Seq<char>) -> ApiResponseView,
    present: Set<Seq<char>>,
    url: Seq<char>,
    root: Seq<char>,
    file_dir: Seq<char>,
    remote: Remote,
    fuel: nat,
)
    requires
        serves(service, url, remote),
        deliverable(remote),
        fuel >= 2 * root_walk(remote, root, file_dir).len() + 2,
    ensures
        run(service, present, start(url, root, file_dir), fuel) == seq![
            request(url),
        ] + performed(root_walk(remote, root, file_dir), present) + seq![ActionView::Finished],
{
    let state = start(url, root, file_dir);
    let action = state.action();
    let after = state.after(outcome(service, present, action));
    let plan = match remote {
        Remote::File(node) => seq![
            Planned { task: TaskView::Write { node, dir: file_dir }, holds: remote },
        ],
        Remote::Dir(entries) => seq![
            Planned { task: TaskView::Mkdir { path: root }, holds: remote },
        ] + entries_plan(entries, entries.len(), root),
    };
    assert(state.agenda.skip(1) == Seq::<TaskView>::empty());
    assert(after.agenda == tasks_of(plan) && unfolded(plan) == root_walk(remote, root, file_dir)
        && all_sound(service, plan)) by {
        match remote {
            Remote::File(node) => {
                assert(plan.skip(1) == Seq::<Planned>::empty());
                assert(unfolded(plan.skip(1)) == Seq::<TaskView>::empty());
                assert(unfolded(plan) == unfold(plan[0]));
            },
            Remote::Dir(entries) => {
                let head = seq![Planned { task: TaskView::Mkdir { path: root }, holds: remote }];
                let below = entries_plan(entries, entries.len(), root);
                lemma_entries_plan(service, url, entries, entries.len(), root);
                assert(nodes_of(entries).take(entries.len() as int) == nodes_of(entries));
                lemma_unfolded_concat(head, below);
                assert(head.skip(1) == Seq::<Planned>::empty());
                assert(unfolded(head.skip(1)) == Seq::<TaskView>::empty());
                assert(unfolded(head) == unfold(head[0]));
                assert(tasks_of(plan) == tasks_of(head) + tasks_of(below));
                assert forall|i: int| 0 <= i < plan.len() implies sound(
                    service,
                    #[trigger] plan[i],
                ) by {
                    if i > 0 {
                        assert(plan[i] == below[i - 1]);
                    }
                }
            },
        }
    }
    lemma_weight_bound(unfolded(plan));
    lemma_settled(service, after, plan);
    lemma_run(service, present, after, plan, (fuel - 1) as nat);
}

/// One file, and no directory.
///
/// Where the service answers the first request with a single entry that can be
/// delivered, the run is three actions: the request, the one write or download of
/// that file into `file_dir`, and the end. No directory is probed or created, and
/// afterwards the disk holds what it held and that one file. Inline contents are
/// written as the bytes that their base64 stands for.
pub proof fn law_lone_file(
    service: spec_fn(Seq<char>) -> ApiResponseView,
    present: Set<Seq<char>>,
    url: Seq<char>,
    root: Seq<char>,
    file_dir: Seq<char>,
    node: ApiObjectView,
    fuel: nat,
)
    requires
        service(url) == ApiResponseView::Object(node),
        can_deliver(node),
        fuel >= 4,
    ensures
        run(service, present, start(url, root, file_dir), fuel) == seq![
            request(url),
            write_action(node, file_dir),
            ActionView::Finished,
        ],
        write_action(node, file_dir) == match node.content {
            Some(text) => ActionView::WriteFile {
                path: child_path(file_dir, node.name),
                bytes: crate::base64::inline_bytes(text)->0,
            },
            None => ActionView::Download {
                url: node.download_url->0,
                path: child_path(file_dir, node.name),
            },
        },
        disk_after_all(run(service, present, start(url, root, file_dir), fuel), present)
            == present.insert(child_path(file_dir, node.name)),
{
    let remote = Remote::File(node);
    law_run_is_the_walk(service, present, url, root, file_dir, remote, fuel);
    let task = TaskView::Write { node, dir: file_dir };
    lemma_performed_one(task, Seq::<TaskView>::empty(), present);
    assert(seq![task] + Seq::<TaskView>::empty() == seq![task]);
    let acts = run(service, present, start(url, root, file_dir), fuel);
    assert(acts == seq![
        request(url),
        write_action(node, file_dir),
        ActionView::Finished,
    ]);
    let made = present.insert(child_path(file_dir, node.name));
    assert(acts.skip(1).skip(1).skip(1) == Seq::<ActionView>::empty());
    assert(disk_after_all(acts.skip(1).skip(1).skip(1), made) == made);
    assert(disk_after_all(acts.skip(1).skip(1), made) == made);
    assert(disk_after_all(acts.skip(1), present) == made);
}

/// The tree on disk is the tree that the service reports.
///
/// Where the service answers the first request with a listing, every file in it
/// deliverable, the run requests the listing, sees to `root`, carries out the
/// walk of the listing into `root`, and finishes. Every directory and file
/// of the walk is made when the directory that it lies in exists. Afterwards the
/// disk holds, besides what it held, `root` and exactly the reported paths.
pub proof fn law_tree_on_disk(
    service: spec_fn(Seq<char>) -> ApiResponseView,
    present: Set<Seq<char>>,
    url: Seq<char>,
    root: Seq<char>,
    file_dir: Seq<char>,
    entries: Seq<RemoteEntry>,
    fuel: nat,
)
    requires
        serves(service, url, Remote::Dir(entries)),
        deliverable(Remote::Dir(entries)),
        fuel >= 2 * walk(Remote::Dir(entries), root).len() + 4,
    ensures
        run(service, present, start(url, root, file_dir), fuel) == seq![
            request(url),
        ] + performed(seq![TaskView::Mkdir { path: root }], present) + performed(
            walk(Remote::Dir(entries), root),
            present.insert(root),
        ) + seq![ActionView::Finished],
        orderly(
            performed(walk(Remote::Dir(entries), root), present.insert(root)),
            present.insert(root),
        ),
        disk_after_all(run(service, present, start(url, root, file_dir), fuel), present)
            == present.insert(root) + reported(Remote::Dir(entries), root),
{
    let remote = Remote::Dir(entries);
    let mkdir = seq![TaskView::Mkdir { path: root }];
    let below = walk(remote, root);
    let grown = present.insert(root);
    law_run_is_the_walk(service, present, url, root, file_dir, remote, fuel);
    lemma_performed_concat(mkdir, below, present);
    lemma_performed_mkdir(root, Seq::<TaskView>::empty(), present);
    assert(mkdir + Seq::<TaskView>::empty() == mkdir);
    let seen = performed(mkdir, present);
    assert(disk_after_all(seen, present) == grown) by {
        if present.contains(root) {
            assert(grown == present);
            assert(seen.skip(1) == Seq::<ActionView>::empty());
            assert(disk_after_all(seen.skip(1), present) == present);
        } else {
            assert(seen.skip(1).skip(1) == Seq::<ActionView>::empty());
            assert(disk_after_all(seen.skip(1).skip(1), grown) == grown);
            assert(disk_after_all(seen.skip(1), present) == grown);
        }
    }
    lemma_walk(remote, root, grown);
    let first = seq![request(url)];
    let end = seq![ActionView::Finished];
    let below_acts = performed(below, grown);
    let acts = run(service, present, start(url, root, file_dir), fuel);
    assert(acts == first + (seen + (below_acts + end)));
    lemma_disk_concat(first, seen + (below_acts + end), present);
    lemma_disk_concat(seen, below_acts + end, present);
    lemma_disk_concat(below_acts, end, grown);
    assert(disk_after_all(first, present) == present) by {
        assert(disk_after_all(first.skip(1), present) == present);
    }
    let last = disk_after_all(below_acts, grown);
    assert(disk_after_all(end, last) == last) by {
        assert(disk_after_all(end.skip(1), last) == last);
    }
}

/// A root that is already there is no failure.
///
/// Where the service answers the first request with a listing and `root` exists
/// before the run, the run probes `root`, does not create it, and carries out the
/// walk of the listing into it as it would have otherwise.
pub proof fn law_existing_root(
    service: spec_fn(Seq<char>) -> ApiResponseView,
    present: Set<Seq<char>>,
    url: Seq<char>,
    root: Seq<char>,
    file_dir: Seq<char>,
    entries: Seq<RemoteEntry>,
    fuel: nat,
)
    requires
        serves(service, url, Remote::Dir(entries)),
        deliverable(Remote::Dir(entries)),
        present.contains(root),
        fuel >= 2 * walk(Remote::Dir(entries), root).len() + 4,
    ensures
        run(service, present, start(url, root, file_dir), fuel) == seq![
            request(url),
            ActionView::Probe { path: root },
        ] + performed(walk(Remote::Dir(entries), root), present) + seq![ActionView::Finished],
{
    law_tree_on_disk(service, present, url, root, file_dir, entries, fuel);
    lemma_performed_mkdir(root, Seq::<TaskView>::empty(), present);
    assert(seq![TaskView::Mkdir { path: root }] + Seq::<TaskView>::empty() == seq![
        TaskView::Mkdir { path: root },
    ]);
    assert(present.insert(root) == present);
}

/// A directory that is found is not created, and what follows is untouched.
///
/// In a run that has not failed and whose first task is to see to a directory,
/// the report that the directory exists takes that task off the agenda and
/// changes nothing else; the report that it is missing puts its creation first.
pub proof fn law_creation_is_skipped(state: FetchView, path: Seq<char>, found: bool)
    requires
        state.failure is None,
        state.agenda.len() > 0,
        state.agenda[0] == (TaskView::Mkdir { path }),
    ensures
        state.action() == (ActionView::Probe { path }),
        state.after(EventView::Exists(found)).failure is None,
        state.after(EventView::Exists(found)).root == state.root,
        state.after(EventView::Exists(found)).file_dir == state.file_dir,
        found ==> state.after(EventView::Exists(found)).agenda == state.agenda.skip(1),
        !found ==> state.after(EventView::Exists(found)).agenda == seq![
            TaskView::Create { path },
        ] + state.agenda.skip(1),
{
    assert(Seq::<TaskView>::empty() + state.agenda.skip(1) == state.agenda.skip(1));
}

/// A message is a failure, never a success.
///
/// Where the service answers the request that the run is waiting on with a
/// message, the run fails with a `RemoteError` that carries the message word for
/// word, and so does every later action.
pub proof fn law_message_fails(state: FetchView, message: Seq<char>, later: EventView)
    requires
        state.failure is None,
        state.agenda.len() > 0,
        state.agenda[0] is Root || state.agenda[0] is List,
    ensures
        ({
            let refusal = EventView::Listing(ApiResponseView::Message(message));
            let failed = state.after(refusal).settled();
            &&& failed.failure == Some(FetchErrorView::RemoteError(message))
            &&& failed.action() == ActionView::Failed(FetchErrorView::RemoteError(message))
            &&& failed.after(later).settled() == failed
        }),
{
}

} // verus!
