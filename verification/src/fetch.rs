//! The download engine: which action comes next, and what its outcome entails.
//!
//! The engine keeps an agenda of tasks, first things first, and performs nothing
//! itself. The caller asks for the action that the first task calls for, performs
//! it, and reports the outcome with [`Fetch::step`], which answers with the next
//! action. A listing puts the tasks of its entries at the head of the agenda, in
//! the order of the listing, so that a directory is read to its end before the
//! entry after it is touched. The first failure stops the run: every later action
//! is `Failed` with that error, and what was created stays on disk.

use crate::error::{FetchError, FetchErrorView};
use crate::response::{entries, ApiObject, ApiObjectView, ApiResponse, ApiResponseView};
use crate::text::{child_path, join_child};
use crate::writer::{delivery_of, write_file, Delivery, DeliveryView};
use vstd::prelude::*;

verus! {

/// One thing still to be done.
#[derive(Debug, PartialEq, Eq)]
pub enum Task {
    /// Ask for what `url` holds; this is the first request of a run, and its
    /// answer decides where everything goes.
    Root { url: String },
    /// Ask for the listing at `url`; its entries go into the directory `dest`.
    List { url: String, dest: String },
    /// See to it that the directory `path` exists.
    Mkdir { path: String },
    /// Create the directory `path`, which was found missing.
    Create { path: String },
    /// Write the file `node` into the directory `dir`.
    Write { node: ApiObject, dir: String },
}

/// A `Task` as a mathematical value.
pub enum TaskView {
    Root { url: Seq<char> },
    List { url: Seq<char>, dest: Seq<char> },
    Mkdir { path: Seq<char> },
    Create { path: Seq<char> },
    Write { node: ApiObjectView, dir: Seq<char> },
}

impl View for Task {
    type V = TaskView;

    open spec fn view(&self) -> TaskView {
        match self {
            Task::Root { url } => TaskView::Root { url: url@ },
            Task::List { url, dest } => TaskView::List { url: url@, dest: dest@ },
            Task::Mkdir { path } => TaskView::Mkdir { path: path@ },
            Task::Create { path } => TaskView::Create { path: path@ },
            Task::Write { node, dir } => TaskView::Write { node: node@, dir: dir@ },
        }
    }
}

/// What the caller is asked to do.
#[derive(Debug, PartialEq, Eq)]
pub enum Action {
    /// Request `url` from the contents service, naming `user_agent` in the header
    /// `User-Agent`, and report the answer.
    Request { url: String, user_agent: String },
    /// Report whether `path` exists.
    Probe { path: String },
    /// Create the directory `path`.
    CreateDir { path: String },
    /// Write `bytes` to the file `path`, creating or truncating it.
    WriteFile { path: String, bytes: Vec<u8> },
    /// Request `url` and stream the answer to the file `path`.
    Download { url: String, path: String },
    /// Nothing is left to do.
    Finished,
    /// The run has failed.
    Failed(FetchError),
}

/// An `Action` as a mathematical value.
pub enum ActionView {
    Request { url: Seq<char>, user_agent: Seq<char> },
    Probe { path: Seq<char> },
    CreateDir { path: Seq<char> },
    WriteFile { path: Seq<char>, bytes: Seq<u8> },
    Download { url: Seq<char>, path: Seq<char> },
    Finished,
    Failed(FetchErrorView),
}

impl View for Action {
    type V = ActionView;

    open spec fn view(&self) -> ActionView {
        match self {
            Action::Request { url, user_agent } => ActionView::Request {
                url: url@,
                user_agent: user_agent@,
            },
            Action::Probe { path } => ActionView::Probe { path: path@ },
            Action::CreateDir { path } => ActionView::CreateDir { path: path@ },
            Action::WriteFile { path, bytes } => ActionView::WriteFile {
                path: path@,
                bytes: bytes@,
            },
            Action::Download { url, path } => ActionView::Download { url: url@, path: path@ },
            Action::Finished => ActionView::Finished,
            Action::Failed(error) => ActionView::Failed(error@),
        }
    }
}

/// What the caller reports of the action it was asked to do.
#[derive(Debug, PartialEq, Eq)]
pub enum Event {
    /// The answer to a `Request`.
    Listing(ApiResponse),
    /// The answer to a `Probe`.
    Exists(bool),
    /// A `CreateDir`, `WriteFile` or `Download` is done.
    Done,
    /// The action failed.
    Failed(FetchError),
}

/// An `Event` as a mathematical value.
pub enum EventView {
    Listing(ApiResponseView),
    Exists(bool),
    Done,
    Failed(FetchErrorView),
}

impl View for Event {
    type V = EventView;

    open spec fn view(&self) -> EventView {
        match self {
            Event::Listing(response) => EventView::Listing(response@),
            Event::Exists(found) => EventView::Exists(*found),
            Event::Done => EventView::Done,
            Event::Failed(error) => EventView::Failed(error@),
        }
    }
}

/// The tasks as mathematical values.
pub open spec fn task_views(tasks: Seq<Task>) -> Seq<TaskView> {
    tasks.map_values(|task: Task| task@)
}

/// The tasks that one entry of a listing for the directory `dest` entails: for a
/// directory, to see that it exists and then to list it; for a file, to write it.
pub open spec fn entry_tasks(node: ApiObjectView, dest: Seq<char>) -> Seq<TaskView> {
    if node.is_dir() {
        seq![
            TaskView::Mkdir { path: child_path(dest, node.name) },
            TaskView::List { url: node.url, dest: child_path(dest, node.name) },
        ]
    } else {
        seq![TaskView::Write { node, dir: dest }]
    }
}

/// The tasks of a listing's entries, in the order of the listing.
pub open spec fn listing_tasks(nodes: Seq<ApiObjectView>, dest: Seq<char>) -> Seq<TaskView>
    decreases nodes.len(),
{
    if nodes.len() == 0 {
        Seq::<TaskView>::empty()
    } else {
        listing_tasks(nodes.drop_last(), dest) + entry_tasks(nodes.last(), dest)
    }
}

/// What the answer to the request for a directory's listing entails, the
/// directory being `path` on disk.
///
/// A single entry is a file and is written into `path`. A message is the
/// service's refusal and is handed on word for word.
pub open spec fn listed(response: ApiResponseView, path: Seq<char>) -> Result<
    Seq<TaskView>,
    FetchErrorView,
> {
    match response {
        ApiResponseView::Object(node) => Ok(seq![TaskView::Write { node, dir: path }]),
        ApiResponseView::Array(nodes) => Ok(listing_tasks(nodes, path)),
        ApiResponseView::Message(message) => Err(FetchErrorView::RemoteError(message)),
    }
}

/// What the answer to the first request of a run entails.
///
/// A single entry means that one file was asked for: it is written into
/// `file_dir` and no directory is made. A listing means that a directory was
/// asked for: `root` is seen to, and the entries go into it.
pub open spec fn resolved(
    response: ApiResponseView,
    root: Seq<char>,
    file_dir: Seq<char>,
) -> Result<Seq<TaskView>, FetchErrorView> {
    match response {
        ApiResponseView::Object(node) => Ok(seq![TaskView::Write { node, dir: file_dir }]),
        ApiResponseView::Array(nodes) => Ok(
            seq![TaskView::Mkdir { path: root }] + listing_tasks(nodes, root),
        ),
        ApiResponseView::Message(message) => Err(FetchErrorView::RemoteError(message)),
    }
}

fn push_entry_tasks(node: &ApiObject, dest: &str, tasks: &mut Vec<Task>)
    ensures
        task_views(final(tasks)@) == task_views(old(tasks)@) + entry_tasks(node@, dest@),
{
    if node.is_dir() {
        let child = join_child(dest, node.name.as_str());
        tasks.push(Task::Mkdir { path: child.clone() });
        tasks.push(Task::List { url: node.url.clone(), dest: child });
    } else {
        tasks.push(Task::Write { node: node.clone(), dir: dest.to_owned() });
    }
    assert(task_views(final(tasks)@) == task_views(old(tasks)@) + entry_tasks(node@, dest@));
}

fn push_listing_tasks(nodes: &Vec<ApiObject>, dest: &str, tasks: &mut Vec<Task>)
    ensures
        task_views(final(tasks)@) == task_views(old(tasks)@) + listing_tasks(
            entries(nodes@),
            dest@,
        ),
{
    let ghost all = entries(nodes@);
    for i in 0..nodes.len()
        invariant
            all == entries(nodes@),
            task_views(tasks@) == task_views(old(tasks)@) + listing_tasks(
                all.take(i as int),
                dest@,
            ),
    {
        assert(all.take(i + 1).drop_last() == all.take(i as int));
        push_entry_tasks(&nodes[i], dest, tasks);
    }
    assert(all.take(nodes.len() as int) == all);
}

/// Reads the answer to the request for the listing of the directory `path`.
pub fn get_dir(response: ApiResponse, path: &str) -> (tasks: Result<Vec<Task>, FetchError>)
    ensures
        match tasks {
            Ok(list) => listed(response@, path@) == Ok::<Seq<TaskView>, FetchErrorView>(
                task_views(list@),
            ),
            Err(error) => listed(response@, path@) == Err::<Seq<TaskView>, FetchErrorView>(
                error@,
            ),
        },
{
    let mut tasks: Vec<Task> = Vec::new();
    match response {
        ApiResponse::Object(node) => {
            tasks.push(Task::Write { node, dir: path.to_owned() });
            assert(task_views(tasks@) == seq![tasks@[0]@]);
            Ok(tasks)
        },
        ApiResponse::Array(nodes) => {
            push_listing_tasks(&nodes, path, &mut tasks);
            Ok(tasks)
        },
        ApiResponse::Message(message) => Err(FetchError::RemoteError(message.message)),
    }
}

/// Reads the answer to the first request of a run.
pub fn download(response: ApiResponse, project_root: &str, file_dir: &str) -> (tasks: Result<
    Vec<Task>,
    FetchError,
>)
    ensures
        match tasks {
            Ok(list) => resolved(response@, project_root@, file_dir@) == Ok::<
                Seq<TaskView>,
                FetchErrorView,
            >(task_views(list@)),
            Err(error) => resolved(response@, project_root@, file_dir@) == Err::<
                Seq<TaskView>,
                FetchErrorView,
            >(error@),
        },
{
    let mut tasks: Vec<Task> = Vec::new();
    match response {
        ApiResponse::Object(node) => {
            tasks.push(Task::Write { node, dir: file_dir.to_owned() });
            assert(task_views(tasks@) == seq![tasks@[0]@]);
            Ok(tasks)
        },
        ApiResponse::Array(nodes) => {
            tasks.push(Task::Mkdir { path: project_root.to_owned() });
            assert(task_views(tasks@) == seq![tasks@[0]@]);
            push_listing_tasks(&nodes, project_root, &mut tasks);
            Ok(tasks)
        },
        ApiResponse::Message(message) => Err(FetchError::RemoteError(message.message)),
    }
}

/// What a run turned out to download.
#[derive(Debug, PartialEq, Eq, Clone, Copy)]
pub enum Target {
    /// One file, written where the caller wanted it, with no directory made.
    File,
    /// A directory, made on disk with everything in it.
    Directory,
}

/// The state of a run.
#[derive(Debug)]
pub struct Fetch {
    root: String,
    file_dir: String,
    /// The agenda, last task first.
    stack: Vec<Task>,
    failure: Option<FetchError>,
    target: Option<Target>,
}

/// A `Fetch` as a mathematical value.
pub struct FetchView {
    /// The directory that a listing's entries go into.
    pub root: Seq<char>,
    /// The directory that a lone file goes into.
    pub file_dir: Seq<char>,
    /// What is still to be done, first things first.
    pub agenda: Seq<TaskView>,
    /// Why the run has failed, if it has.
    pub failure: Option<FetchErrorView>,
    /// What the run downloads, once the first answer has told.
    pub target: Option<Target>,
}

/// The agenda that a stack of tasks stands for: its last task comes first.
pub open spec fn agenda_of(stack: Seq<Task>) -> Seq<TaskView> {
    Seq::new(stack.len(), |i: int| stack[stack.len() - 1 - i]@)
}

/// An optional error as a mathematical value.
pub open spec fn optional_error(error: Option<FetchError>) -> Option<FetchErrorView> {
    match error {
        Some(e) => Some(e@),
        None => None,
    }
}

impl View for Fetch {
    type V = FetchView;

    closed spec fn view(&self) -> FetchView {
        FetchView {
            root: self.root@,
            file_dir: self.file_dir@,
            agenda: agenda_of(self.stack@),
            failure: optional_error(self.failure),
            target: self.target,
        }
    }
}

/// What an answer to the first request says of the target: a single entry is a
/// file, a listing is a directory.
pub open spec fn target_of(response: ApiResponseView) -> Option<Target> {
    match response {
        ApiResponseView::Object(_) => Some(Target::File),
        ApiResponseView::Array(_) => Some(Target::Directory),
        ApiResponseView::Message(_) => None,
    }
}

/// The action that writes the file `node` into `dir`, or the failure to plan it.
pub open spec fn write_action(node: ApiObjectView, dir: Seq<char>) -> ActionView {
    match delivery_of(node, dir) {
        Ok(DeliveryView::Inline { path, bytes }) => ActionView::WriteFile { path, bytes },
        Ok(DeliveryView::Redirected { url, path }) => ActionView::Download { url, path },
        Err(error) => ActionView::Failed(error),
    }
}

/// The name that every request to the contents service gives of its sender; the
/// service turns away a request that gives none.
pub open spec fn user_agent() -> Seq<char> {
    "request"@
}

/// The request of `url` from the contents service.
pub open spec fn request(url: Seq<char>) -> ActionView {
    ActionView::Request { url, user_agent: user_agent() }
}

/// The action that a task calls for.
pub open spec fn task_action(task: TaskView) -> ActionView {
    match task {
        TaskView::Root { url } => request(url),
        TaskView::List { url, .. } => request(url),
        TaskView::Mkdir { path } => ActionView::Probe { path },
        TaskView::Create { path } => ActionView::CreateDir { path },
        TaskView::Write { node, dir } => write_action(node, dir),
    }
}

impl FetchView {
    /// The state with the failure `error` recorded.
    pub open spec fn failed(self, error: FetchErrorView) -> FetchView {
        FetchView { failure: Some(error), ..self }
    }

    /// The state with `tasks` in place of the first task.
    pub open spec fn replaced(self, tasks: Seq<TaskView>) -> FetchView {
        FetchView { agenda: tasks + self.agenda.skip(1), ..self }
    }

    /// Whether the run has come to its end without a failure.
    pub open spec fn finished(self) -> bool {
        self.failure is None && self.agenda.len() == 0
    }

    /// The action to perform now: `Failed` once the run has failed, `Finished` when
    /// the agenda is empty, else what the first task calls for.
    pub open spec fn action(self) -> ActionView {
        match self.failure {
            Some(error) => ActionView::Failed(error),
            None => if self.agenda.len() == 0 {
                ActionView::Finished
            } else {
                task_action(self.agenda[0])
            },
        }
    }

    /// The state once the action to perform has been determined: a file that cannot
    /// be delivered fails the run.
    pub open spec fn settled(self) -> FetchView {
        match self.action() {
            ActionView::Failed(error) => self.failed(error),
            _ => self,
        }
    }

    /// The state after `event` was reported.
    ///
    /// A failed or finished run takes no notice of events. A reported failure
    /// fails the run. An event that answers the first task replaces that task by
    /// what the answer entails: the tasks of a listing, the creation of a
    /// directory that was found missing, or nothing. Any other event changes
    /// nothing, so that the same action is asked for again.
    pub open spec fn after(self, event: EventView) -> FetchView {
        if self.failure is Some || self.agenda.len() == 0 {
            self
        } else {
            match (self.agenda[0], event) {
                (_, EventView::Failed(error)) => self.failed(error),
                (TaskView::Root { .. }, EventView::Listing(response)) => match resolved(
                    response,
                    self.root,
                    self.file_dir,
                ) {
                    Ok(tasks) => FetchView { target: target_of(response), ..self.replaced(tasks) },
                    Err(error) => self.failed(error),
                },
                (TaskView::List { dest, .. }, EventView::Listing(response)) => match listed(
                    response,
                    dest,
                ) {
                    Ok(tasks) => self.replaced(tasks),
                    Err(error) => self.failed(error),
                },
                (TaskView::Mkdir { path }, EventView::Exists(found)) => if found {
                    self.replaced(Seq::<TaskView>::empty())
                } else {
                    self.replaced(seq![TaskView::Create { path }])
                },
                (TaskView::Create { .. }, EventView::Done) => self.replaced(
                    Seq::<TaskView>::empty(),
                ),
                (TaskView::Write { .. }, EventView::Done) => self.replaced(
                    Seq::<TaskView>::empty(),
                ),
                _ => self,
            }
        }
    }
}

/// Putting a task on the stack puts it at the head of the agenda.
proof fn lemma_agenda_push(stack: Seq<Task>, task: Task)
    ensures
        agenda_of(stack.push(task)) == seq![task@] + agenda_of(stack),
{
}

/// Taking the last task off the stack takes the first off the agenda.
proof fn lemma_agenda_pop(stack: Seq<Task>)
    requires
        stack.len() > 0,
    ensures
        agenda_of(stack.drop_last()) == agenda_of(stack).skip(1),
        agenda_of(stack)[0] == stack.last()@,
{
}

impl Fetch {
    /// A run that starts by requesting `url`. A listing's entries will go into
    /// `root`, a lone file into `file_dir`.
    pub fn new(url: String, root: String, file_dir: String) -> (engine: Fetch)
        ensures
            engine@ == (FetchView {
                root: root@,
                file_dir: file_dir@,
                agenda: seq![TaskView::Root { url: url@ }],
                failure: None,
                target: None,
            }),
    {
        let mut stack: Vec<Task> = Vec::new();
        stack.push(Task::Root { url });
        assert(agenda_of(stack@) == seq![stack@[0]@]);
        Fetch { root, file_dir, stack, failure: None, target: None }
    }

    /// Puts `tasks` at the head of the agenda, in their order.
    fn schedule(&mut self, tasks: Vec<Task>)
        ensures
            final(self)@ == (FetchView {
                agenda: task_views(tasks@) + old(self)@.agenda,
                ..old(self)@
            }),
    {
        let mut tasks = tasks;
        let ghost all = task_views(tasks@);
        let ghost before = agenda_of(self.stack@);
        while tasks.len() > 0
            invariant
                self.root == old(self).root,
                self.file_dir == old(self).file_dir,
                self.failure == old(self).failure,
                self.target == old(self).target,
                task_views(tasks@) + agenda_of(self.stack@) == all + before,
            decreases tasks.len(),
        {
            let ghost left = tasks@;
            let ghost stack = self.stack@;
            let task = tasks.pop().unwrap();
            self.stack.push(task);
            proof {
                lemma_agenda_push(stack, task);
                assert(task_views(left) == task_views(tasks@) + seq![task@]);
                assert(task_views(tasks@) + agenda_of(self.stack@) == task_views(left)
                    + agenda_of(stack));
            }
        }
        assert(task_views(tasks@) + agenda_of(self.stack@) == agenda_of(self.stack@));
    }

    /// Takes the first task off the agenda and records what a listing entails, or
    /// the failure.
    fn replace(&mut self, tasks: Result<Vec<Task>, FetchError>)
        requires
            old(self)@.agenda.len() > 0,
        ensures
            final(self)@ == match tasks {
                Ok(list) => old(self)@.replaced(task_views(list@)),
                Err(error) => old(self)@.failed(error@),
            },
    {
        match tasks {
            Ok(list) => {
                proof {
                    lemma_agenda_pop(self.stack@);
                }
                self.stack.pop();
                self.schedule(list);
            },
            Err(error) => {
                self.failure = Some(error);
            },
        }
    }

    /// The action to perform now.
    ///
    /// Where the first task is a file that cannot be delivered, the run fails
    /// here, and stays failed.
    pub fn action(&mut self) -> (action: Action)
        ensures
            action@ == old(self)@.action(),
            final(self)@ == old(self)@.settled(),
            final(self)@.action() == action@,
    {
        if let Some(error) = &self.failure {
            return Action::Failed(error.clone());
        }
        let n = self.stack.len();
        if n == 0 {
            return Action::Finished;
        }
        proof {
            lemma_agenda_pop(self.stack@);
        }
        let planned: Result<Action, FetchError> = match &self.stack[n - 1] {
            Task::Root { url } => Ok(
                Action::Request { url: url.clone(), user_agent: "request".to_owned() },
            ),
            Task::List { url, .. } => Ok(
                Action::Request { url: url.clone(), user_agent: "request".to_owned() },
            ),
            Task::Mkdir { path } => Ok(Action::Probe { path: path.clone() }),
            Task::Create { path } => Ok(Action::CreateDir { path: path.clone() }),
            Task::Write { node, dir } => match write_file(node, dir.as_str()) {
                Ok(Delivery::Inline { path, bytes }) => Ok(Action::WriteFile { path, bytes }),
                Ok(Delivery::Redirected { url, path }) => Ok(Action::Download { url, path }),
                Err(error) => Err(error),
            },
        };
        match planned {
            Ok(action) => action,
            Err(error) => {
                let action = Action::Failed(error.clone());
                self.failure = Some(error);
                action
            },
        }
    }

    /// Records the outcome of the action that was asked for.
    fn record(&mut self, event: Event)
        ensures
            final(self)@ == old(self)@.after(event@),
    {
        if self.failure.is_some() {
            return ;
        }
        let n = self.stack.len();
        if n == 0 {
            return ;
        }
        proof {
            lemma_agenda_pop(self.stack@);
        }
        match event {
            Event::Failed(error) => {
                self.failure = Some(error);
            },
            Event::Listing(response) => {
                let first = match &self.stack[n - 1] {
                    Task::Root { .. } => true,
                    _ => false,
                };
                let target = match &response {
                    ApiResponse::Object(_) => Some(Target::File),
                    ApiResponse::Array(_) => Some(Target::Directory),
                    ApiResponse::Message(_) => None,
                };
                let tasks = match &self.stack[n - 1] {
                    Task::Root { .. } => Some(
                        download(response, self.root.as_str(), self.file_dir.as_str()),
                    ),
                    Task::List { dest, .. } => Some(get_dir(response, dest.as_str())),
                    _ => None,
                };
                if let Some(tasks) = tasks {
                    let listed = tasks.is_ok();
                    self.replace(tasks);
                    if first && listed {
                        self.target = target;
                    }
                }
            },
            Event::Exists(found) => {
                let missing = match &self.stack[n - 1] {
                    Task::Mkdir { path } => Some(path.clone()),
                    _ => None,
                };
                if let Some(path) = missing {
                    let mut tasks: Vec<Task> = Vec::new();
                    if !found {
                        tasks.push(Task::Create { path });
                        assert(task_views(tasks@) == seq![tasks@[0]@]);
                    } else {
                        assert(task_views(tasks@) == Seq::<TaskView>::empty());
                    }
                    self.replace(Ok(tasks));
                }
            },
            Event::Done => {
                let answered = match &self.stack[n - 1] {
                    Task::Create { .. } => true,
                    Task::Write { .. } => true,
                    _ => false,
                };
                if answered {
                    let tasks: Vec<Task> = Vec::new();
                    assert(task_views(tasks@) == Seq::<TaskView>::empty());
                    self.replace(Ok(tasks));
                }
            },
        }
    }

    /// Whether the run has come to its end without a failure.
    pub fn finished(&self) -> (done: bool)
        ensures
            done == self@.finished(),
    {
        self.failure.is_none() && self.stack.len() == 0
    }

    /// What the run downloads, once the first answer has told.
    pub fn target(&self) -> (target: Option<Target>)
        ensures
            target == self@.target,
    {
        self.target
    }

    /// Why the run has failed, if it has.
    pub fn failure(&self) -> (failure: Option<FetchError>)
        ensures
            optional_error(failure) == self@.failure,
    {
        match &self.failure {
            Some(error) => Some(error.clone()),
            None => None,
        }
    }

    /// Records the outcome of the action that was asked for, and answers with the
    /// action to perform next.
    pub fn step(&mut self, event: Event) -> (action: Action)
        ensures
            final(self)@ == old(self)@.after(event@).settled(),
            action@ == final(self)@.action(),
    {
        self.record(event);
        self.action()
    }
}

} // verus!
