//! The application: its state, the built-in commands, and running a command by name.
use vstd::prelude::*;
use vstd::string::StringSliceAdditionalSpecFns;
use vstd::utf8::encode_utf8;

use crate::buffer::{buffer_error_text, BufferError};
use crate::command::{
    text_arg, unsigned_arg, CommandArgs, CommandBus, CommandEntry, CommandError, CommandErrorModel,
    CommandHandler, CommandInvocation, CommandOutput, CommandSpec, CommandTarget,
};
use crate::commands::{
    delete_outcome, goto_outcome, motion_outcome, select_all_outcome, split_outcome, typing_outcome,
    CaretMotion, DeleteKind,
};
use crate::history::EditTransaction;
use crate::line_commands::{line_command_outcome, LineInsert};
use crate::line_moves::move_outcome;
use crate::selection::Region;
use crate::settings::find_key;
use crate::state::{redo_outcome, undo_outcome, with_new_buffer_and_view, AppState, StateModel};
use crate::text::{count_newlines, decimal, decimal_string, line_begin};

verus! {

/// Builds an application.
pub struct NeedleAppBuilder {
    name: String,
}

impl NeedleAppBuilder {
    /// A builder for an application named "Project Needle".
    pub fn new() -> (r: Self)
        ensures
            r.app_name() == "Project Needle"@,
    {
        NeedleAppBuilder { name: "Project Needle".to_owned() }
    }

    pub closed spec fn app_name(&self) -> Seq<char> {
        self.name@
    }

    /// The builder with the application name set to `name`.
    pub fn name(self, name: String) -> (r: Self)
        ensures
            r.app_name() == name@,
    {
        NeedleAppBuilder { name }
    }

    pub fn build(self) -> (r: NeedleApp)
        ensures
            r.name_model() == self.app_name(),
            r.app_state().model() == initial_state(self.app_name()),
            r.commands_model() == builtin_registry(),
            r.wf(),
    {
        NeedleApp::new(self.name.as_str())
    }
}

impl Default for NeedleAppBuilder {
    /// A builder whose application name is empty.
    fn default() -> (r: Self)
        ensures
            r.app_name() == Seq::<char>::empty(),
    {
        NeedleAppBuilder { name: String::new() }
    }
}

/// The application: its name, its state and its registry of commands.
pub struct NeedleApp {
    name: String,
    state: AppState,
    commands: CommandBus,
}

/// The state of a new application named `name`.
pub open spec fn initial_state(name: Seq<char>) -> StateModel {
    StateModel {
        app_name: name,
        active_window: crate::ids::WindowId(1),
        active_view: None,
        buffers: Seq::empty(),
        views: Seq::empty(),
        undo: Seq::empty(),
        redo: Seq::empty(),
        next_buffer_id: 1,
        next_view_id: 1,
        next_window_id: 2,
    }
}

/// The built-in commands, in the order they are registered.
pub open spec fn builtin_list() -> Seq<CommandEntry> {
    seq![
        ("new_file"@, ("Create a new empty buffer and view"@, CommandHandler::NewFile)),
        ("insert_text"@, ("Insert text into the active selection(s)"@, CommandHandler::InsertText)),
        ("delete_backward"@, ("Delete backwards from the active selection(s)"@, CommandHandler::DeleteBackward)),
        ("delete_forward"@, ("Delete forwards from the active selection(s)"@, CommandHandler::DeleteForward)),
        ("move_left"@, ("Move the active caret(s) left"@, CommandHandler::MoveLeft)),
        ("move_right"@, ("Move the active caret(s) right"@, CommandHandler::MoveRight)),
        ("move_to_beginning_of_line"@, ("Move caret(s) to beginning of line"@, CommandHandler::MoveToBeginningOfLine)),
        ("move_to_end_of_line"@, ("Move caret(s) to end of line"@, CommandHandler::MoveToEndOfLine)),
        ("move_up"@, ("Move the active caret(s) up"@, CommandHandler::MoveUp)),
        ("move_down"@, ("Move the active caret(s) down"@, CommandHandler::MoveDown)),
        ("select_line"@, ("Select the current line(s)"@, CommandHandler::SelectLine)),
        ("duplicate_line"@, ("Duplicate the current line(s)"@, CommandHandler::DuplicateLine)),
        ("delete_to_beginning_of_line"@, ("Delete to the beginning of line"@, CommandHandler::DeleteToBeginningOfLine)),
        ("delete_to_end_of_line"@, ("Delete to the end of line"@, CommandHandler::DeleteToEndOfLine)),
        ("insert_line_after"@, ("Insert a new line after the current line(s)"@, CommandHandler::InsertLineAfter)),
        ("insert_line_before"@, ("Insert a new line before the current line(s)"@, CommandHandler::InsertLineBefore)),
        ("move_lines_up"@, ("Move selected line(s) up"@, CommandHandler::MoveLinesUp)),
        ("move_lines_down"@, ("Move selected line(s) down"@, CommandHandler::MoveLinesDown)),
        ("split_selection_into_lines"@, ("Split current selection into line carets"@, CommandHandler::SplitSelectionIntoLines)),
        ("goto_line"@, ("Move cursor to a 1-based line number"@, CommandHandler::GotoLine)),
        ("select_all"@, ("Select the full active buffer"@, CommandHandler::SelectAll)),
        ("undo"@, ("Undo last buffer edit"@, CommandHandler::Undo)),
        ("redo"@, ("Redo last undone buffer edit"@, CommandHandler::Redo)),
        ("buffer_info"@, ("Show active buffer summary"@, CommandHandler::BufferInfo)),
    ]
}

/// The registry after registering `e` in `bus`: in place of a command of the same name, or added.
pub open spec fn registered(bus: Seq<CommandEntry>, e: CommandEntry) -> Seq<CommandEntry> {
    if find_key(bus, e.0) >= 0 {
        bus.update(find_key(bus, e.0), e)
    } else {
        bus.push(e)
    }
}

/// The registry after registering every entry of `list` in order.
pub open spec fn registered_all(bus: Seq<CommandEntry>, list: Seq<CommandEntry>) -> Seq<CommandEntry>
    decreases list.len(),
{
    if list.len() == 0 {
        bus
    } else {
        registered(registered_all(bus, list.drop_last()), list.last())
    }
}

/// The registry of a new application.
pub open spec fn builtin_registry() -> Seq<CommandEntry> {
    registered_all(Seq::empty(), builtin_list())
}

fn builtin_commands() -> (r: Vec<(CommandSpec, CommandHandler)>)
    ensures
        r@.map_values(|p: (CommandSpec, CommandHandler)| (p.0.name@, (p.0.description@, p.1))) == builtin_list(),
{
    let r = vec![
        (CommandSpec::new("new_file", "Create a new empty buffer and view"), CommandHandler::NewFile),
        (CommandSpec::new("insert_text", "Insert text into the active selection(s)"), CommandHandler::InsertText),
        (CommandSpec::new("delete_backward", "Delete backwards from the active selection(s)"), CommandHandler::DeleteBackward),
        (CommandSpec::new("delete_forward", "Delete forwards from the active selection(s)"), CommandHandler::DeleteForward),
        (CommandSpec::new("move_left", "Move the active caret(s) left"), CommandHandler::MoveLeft),
        (CommandSpec::new("move_right", "Move the active caret(s) right"), CommandHandler::MoveRight),
        (CommandSpec::new("move_to_beginning_of_line", "Move caret(s) to beginning of line"), CommandHandler::MoveToBeginningOfLine),
        (CommandSpec::new("move_to_end_of_line", "Move caret(s) to end of line"), CommandHandler::MoveToEndOfLine),
        (CommandSpec::new("move_up", "Move the active caret(s) up"), CommandHandler::MoveUp),
        (CommandSpec::new("move_down", "Move the active caret(s) down"), CommandHandler::MoveDown),
        (CommandSpec::new("select_line", "Select the current line(s)"), CommandHandler::SelectLine),
        (CommandSpec::new("duplicate_line", "Duplicate the current line(s)"), CommandHandler::DuplicateLine),
        (CommandSpec::new("delete_to_beginning_of_line", "Delete to the beginning of line"), CommandHandler::DeleteToBeginningOfLine),
        (CommandSpec::new("delete_to_end_of_line", "Delete to the end of line"), CommandHandler::DeleteToEndOfLine),
        (CommandSpec::new("insert_line_after", "Insert a new line after the current line(s)"), CommandHandler::InsertLineAfter),
        (CommandSpec::new("insert_line_before", "Insert a new line before the current line(s)"), CommandHandler::InsertLineBefore),
        (CommandSpec::new("move_lines_up", "Move selected line(s) up"), CommandHandler::MoveLinesUp),
        (CommandSpec::new("move_lines_down", "Move selected line(s) down"), CommandHandler::MoveLinesDown),
        (CommandSpec::new("split_selection_into_lines", "Split current selection into line carets"), CommandHandler::SplitSelectionIntoLines),
        (CommandSpec::new("goto_line", "Move cursor to a 1-based line number"), CommandHandler::GotoLine),
        (CommandSpec::new("select_all", "Select the full active buffer"), CommandHandler::SelectAll),
        (CommandSpec::new("undo", "Undo last buffer edit"), CommandHandler::Undo),
        (CommandSpec::new("redo", "Redo last undone buffer edit"), CommandHandler::Redo),
        (CommandSpec::new("buffer_info", "Show active buffer summary"), CommandHandler::BufferInfo),
    ];
    proof {
        assert(r@.map_values(|p: (CommandSpec, CommandHandler)| (p.0.name@, (p.0.description@, p.1))) =~= builtin_list());
    }
    r
}

impl NeedleApp {
    pub closed spec fn name_model(&self) -> Seq<char> {
        self.name@
    }

    pub closed spec fn app_state(&self) -> AppState {
        self.state
    }

    pub closed spec fn commands_model(&self) -> Seq<CommandEntry> {
        self.commands@
    }

    /// The application's state keeps its invariant.
    pub open spec fn wf(&self) -> bool {
        self.app_state().wf()
    }

    pub fn builder() -> (r: NeedleAppBuilder)
        ensures
            r.app_name() == "Project Needle"@,
    {
        NeedleAppBuilder::new()
    }

    /// A new application named `name`, with the built-in commands registered.
    pub fn new(name: &str) -> (r: Self)
        ensures
            r.name_model() == name@,
            r.app_state().model() == initial_state(name@),
            r.commands_model() == builtin_registry(),
            r.wf(),
    {
        let mut app = NeedleApp { name: name.to_owned(), state: AppState::new(name), commands: CommandBus::new() };
        app.register_builtin_commands();
        app
    }

    fn register_builtin_commands(&mut self)
        requires
            old(self).commands_model() == Seq::<CommandEntry>::empty(),
        ensures
            final(self).commands_model() == builtin_registry(),
            final(self).name_model() == old(self).name_model(),
            final(self).app_state() == old(self).app_state(),
    {
        let list = builtin_commands();
        let ghost lm = builtin_list();
        let mut i: usize = 0;
        proof {
            assert(lm.take(0) == Seq::<CommandEntry>::empty());
        }
        while i < list.len()
            invariant
                i <= lm.len(),
                list@.map_values(|p: (CommandSpec, CommandHandler)| (p.0.name@, (p.0.description@, p.1))) == lm,
                self.commands@ == registered_all(Seq::empty(), lm.take(i as int)),
                self.name == old(self).name,
                self.state == old(self).state,
            decreases lm.len() - i,
        {
            let spec = list[i].0.clone();
            let handler = list[i].1;
            proof {
                assert(lm[i as int] == (list@[i as int].0.name@, (list@[i as int].0.description@, list@[i as int].1)));
                assert(lm.take(i + 1).drop_last() == lm.take(i as int));
                assert(lm.take(i + 1).last() == lm[i as int]);
            }
            self.commands.register(spec, handler);
            i = i + 1;
        }
        proof {
            assert(lm.take(i as int) == lm);
        }
    }

    pub fn name(&self) -> (r: &str)
        ensures
            r@ == self.name_model(),
    {
        self.name.as_str()
    }

    pub fn state(&self) -> (r: &AppState)
        ensures
            *r == self.app_state(),
    {
        &self.state
    }

    pub fn state_mut(&mut self) -> (r: &mut AppState)
        ensures
            *r == old(self).app_state(),
            final(self).app_state() == *final(r),
            final(self).name_model() == old(self).name_model(),
            final(self).commands_model() == old(self).commands_model(),
    {
        &mut self.state
    }

    pub fn command_bus(&self) -> (r: &CommandBus)
        ensures
            r@ == self.commands_model(),
    {
        &self.commands
    }

    /// Creates an empty buffer and a view onto it, and makes that view active.
    pub fn open_scratch_buffer(&mut self)
        requires
            old(self).wf(),
        ensures
            final(self).app_state().model() == with_new_buffer_and_view(old(self).app_state().model()),
            final(self).name_model() == old(self).name_model(),
            final(self).commands_model() == old(self).commands_model(),
            final(self).wf(),
    {
        let _ids = self.state.create_empty_buffer_and_view();
    }

    /// An invocation that targets the active view, or the application when no view is active.
    pub fn default_invocation(&self) -> (r: CommandInvocation)
        ensures
            r.target == (match self.app_state().model().active_view {
                Some(id) => CommandTarget::View(id),
                None => CommandTarget::Application,
            }),
            r.args@ == Seq::<(Seq<char>, crate::command::ArgModel)>::empty(),
    {
        match self.state.active_view_id() {
            Some(view_id) => CommandInvocation::new(CommandTarget::View(view_id)),
            None => CommandInvocation::new(CommandTarget::Application),
        }
    }
}

/// What a command run hands back, as values.
pub type CommandResultModel = Result<Option<Seq<char>>, CommandErrorModel>;

pub open spec fn result_model(r: Result<CommandOutput, CommandError>) -> CommandResultModel {
    match r {
        Ok(o) => Ok(
            match o.message {
                Some(m) => Some(m@),
                None => None,
            },
        ),
        Err(e) => Err(e@),
    }
}

/// How a refused buffer operation is reported by a command.
pub open spec fn buffer_failure(e: BufferError) -> CommandErrorModel {
    match e {
        BufferError::NoActiveView => CommandErrorModel::NoActiveView,
        _ => CommandErrorModel::Buffer(buffer_error_text(e)),
    }
}

/// A count reported as `head`, the count in decimal, then `tail`; a refusal as its failure.
pub open spec fn counted(r: Result<usize, BufferError>, head: Seq<char>, tail: Seq<char>) -> CommandResultModel {
    match r {
        Ok(n) => Ok(Some(head + decimal(n as nat) + tail)),
        Err(e) => Err(buffer_failure(e)),
    }
}

/// A history step reported by the number of edits it made, or `nothing`.
pub open spec fn history_report(r: Result<Option<EditTransaction>, BufferError>, head: Seq<char>, nothing: Seq<char>) -> CommandResultModel {
    match r {
        Ok(Some(tx)) => Ok(Some(head + decimal(tx@.len()) + " edit(s)"@)),
        Ok(None) => Ok(Some(nothing)),
        Err(e) => Err(buffer_failure(e)),
    }
}

/// The text argument of the line-inserting commands: the string under "text", or empty.
pub open spec fn line_text_arg(args: Seq<(Seq<char>, crate::command::ArgModel)>) -> Seq<u8> {
    match text_arg(args, "text"@) {
        Some(t) => encode_utf8(t),
        None => Seq::empty(),
    }
}

/// The summary the buffer_info command reports for the active buffer and view.
pub open spec fn buffer_info_report(m: StateModel, bi: int, vi: int) -> CommandResultModel {
    let t = m.buffers[bi].text;
    let sels = m.views[vi].selections;
    let caret = if sels.len() > 0 { sels.last().b } else { 0 };
    if !crate::text::valid_range(t, caret as int, caret as int) {
        Err(buffer_failure(BufferError::InvalidRange { start: caret, end: caret, len: t.len() as usize }))
    } else {
        Ok(Some("len="@ + decimal(t.len()) + ", lines="@ + decimal(count_newlines(t, t.len() as int) + 1)
            + ", selections="@ + decimal(sels.len()) + ", caret=("@ + decimal(count_newlines(t, caret as int))
            + ", "@ + decimal((caret - line_begin(t, caret as int)) as nat) + ")"@))
    }
}

/// What running handler `h` with arguments `args` does to the state `old`, leaving `new`, and
/// what it reports.
pub open spec fn handler_outcome(
    h: CommandHandler,
    args: Seq<(Seq<char>, crate::command::ArgModel)>,
    old: AppState,
    res: CommandResultModel,
    new: AppState,
) -> bool {
    match h {
        CommandHandler::NewFile => new.model() == with_new_buffer_and_view(old.model())
            && res == Ok::<Option<Seq<char>>, CommandErrorModel>(Some("created view "@ + decimal(old.model().next_view_id as nat))),
        CommandHandler::InsertText => match text_arg(args, "text"@) {
            None => res == Err::<Option<Seq<char>>, CommandErrorModel>(CommandErrorModel::MissingArgument("text"@))
                && new.model() == old.model(),
            Some(t) => exists|r0: Result<usize, BufferError>| #[trigger] typing_outcome(&old, encode_utf8(t), r0, &new)
                && res == (match r0 {
                    Ok(n) => Ok(Some("updated "@ + decimal(n as nat) + " selection(s) with "@ + decimal(encode_utf8(t).len()) + " bytes"@)),
                    Err(e) => Err(buffer_failure(e)),
                }),
        },
        CommandHandler::DeleteBackward => exists|r0: Result<usize, BufferError>| #[trigger] delete_outcome(&old, DeleteKind::Backward, r0, &new)
            && res == counted(r0, "deleted across "@, " selection(s)"@),
        CommandHandler::DeleteForward => exists|r0: Result<usize, BufferError>| #[trigger] delete_outcome(&old, DeleteKind::Forward, r0, &new)
            && res == counted(r0, "forward-deleted across "@, " selection(s)"@),
        CommandHandler::MoveLeft => exists|r0: Result<usize, BufferError>| #[trigger] motion_outcome(&old, CaretMotion::Left, r0, &new)
            && res == counted(r0, "moved "@, " selection(s) left"@),
        CommandHandler::MoveRight => exists|r0: Result<usize, BufferError>| #[trigger] motion_outcome(&old, CaretMotion::Right, r0, &new)
            && res == counted(r0, "moved "@, " selection(s) right"@),
        CommandHandler::MoveToBeginningOfLine => exists|r0: Result<usize, BufferError>| #[trigger] motion_outcome(&old, CaretMotion::LineStart, r0, &new)
            && res == counted(r0, "moved "@, " selection(s) to line start"@),
        CommandHandler::MoveToEndOfLine => exists|r0: Result<usize, BufferError>| #[trigger] motion_outcome(&old, CaretMotion::LineEnd, r0, &new)
            && res == counted(r0, "moved "@, " selection(s) to line end"@),
        CommandHandler::MoveUp => exists|r0: Result<usize, BufferError>| #[trigger] motion_outcome(&old, CaretMotion::Up, r0, &new)
            && res == counted(r0, "moved "@, " selection(s) up"@),
        CommandHandler::MoveDown => exists|r0: Result<usize, BufferError>| #[trigger] motion_outcome(&old, CaretMotion::Down, r0, &new)
            && res == counted(r0, "moved "@, " selection(s) down"@),
        CommandHandler::SelectLine => exists|r0: Result<usize, BufferError>| #[trigger] motion_outcome(&old, CaretMotion::WholeLine, r0, &new)
            && res == counted(r0, "selected "@, " line(s)"@),
        CommandHandler::DuplicateLine => exists|r0: Result<usize, BufferError>| #[trigger] line_command_outcome(&old, LineInsert::Duplicate, Seq::empty(), r0, &new)
            && res == counted(r0, "duplicated "@, " line selection(s)"@),
        CommandHandler::DeleteToBeginningOfLine => exists|r0: Result<usize, BufferError>| #[trigger] delete_outcome(&old, DeleteKind::ToLineStart, r0, &new)
            && res == counted(r0, "deleted to line start for "@, " selection(s)"@),
        CommandHandler::DeleteToEndOfLine => exists|r0: Result<usize, BufferError>| #[trigger] delete_outcome(&old, DeleteKind::ToLineEnd, r0, &new)
            && res == counted(r0, "deleted to line end for "@, " selection(s)"@),
        CommandHandler::InsertLineAfter => exists|r0: Result<usize, BufferError>| #[trigger] line_command_outcome(&old, LineInsert::After, line_text_arg(args), r0, &new)
            && res == counted(r0, "inserted line after for "@, " selection(s)"@),
        CommandHandler::InsertLineBefore => exists|r0: Result<usize, BufferError>| #[trigger] line_command_outcome(&old, LineInsert::Before, line_text_arg(args), r0, &new)
            && res == counted(r0, "inserted line before for "@, " selection(s)"@),
        CommandHandler::MoveLinesUp => exists|r0: Result<usize, BufferError>| #[trigger] move_outcome(&old, true, r0, &new)
            && res == counted(r0, "moved "@, " line block(s) up"@),
        CommandHandler::MoveLinesDown => exists|r0: Result<usize, BufferError>| #[trigger] move_outcome(&old, false, r0, &new)
            && res == counted(r0, "moved "@, " line block(s) down"@),
        CommandHandler::SplitSelectionIntoLines => exists|r0: Result<usize, BufferError>| #[trigger] split_outcome(&old, r0, &new)
            && res == counted(r0, "split into "@, " caret(s)"@),
        CommandHandler::GotoLine => match unsigned_arg(args, "line"@) {
            None => res == Err::<Option<Seq<char>>, CommandErrorModel>(CommandErrorModel::MissingArgument("line"@))
                && new.model() == old.model(),
            Some(n) => exists|r0: Result<usize, BufferError>| #[trigger] goto_outcome(&old, n as usize, r0, &new)
                && res == counted(r0, "moved "@, " caret(s) to line "@ + decimal((n as usize) as nat)),
        },
        CommandHandler::SelectAll => exists|r0: Result<Region, BufferError>| #[trigger] select_all_outcome(&old, r0, &new)
            && res == (match r0 {
                Ok(reg) => Ok(Some("selected "@ + decimal((reg.hi() - reg.lo()) as nat) + " bytes"@)),
                Err(e) => Err(buffer_failure(e)),
            }),
        CommandHandler::Undo => exists|r0: Result<Option<EditTransaction>, BufferError>| #[trigger] undo_outcome(&old, r0, &new)
            && res == history_report(r0, "undid "@, "nothing to undo"@),
        CommandHandler::Redo => exists|r0: Result<Option<EditTransaction>, BufferError>| #[trigger] redo_outcome(&old, r0, &new)
            && res == history_report(r0, "redid "@, "nothing to redo"@),
        CommandHandler::BufferInfo => new.model() == old.model() && if old.active_buffer_index() < 0 {
            res == Err::<Option<Seq<char>>, CommandErrorModel>(CommandErrorModel::NoActiveView)
        } else {
            res == buffer_info_report(old.model(), old.active_buffer_index(), old.active_view_index())
        },
    }
}

fn buffer_failure_of(e: BufferError) -> (r: CommandError)
    ensures
        r@ == buffer_failure(e),
{
    match e {
        BufferError::NoActiveView => CommandError::NoActiveView,
        other => CommandError::Buffer(other.message()),
    }
}

/// `head`, `n` in decimal, then `tail`.
fn count_message(head: &str, n: u64, tail: &str) -> (r: String)
    ensures
        r@ == head@ + decimal(n as nat) + tail@,
{
    let mut s = head.to_owned();
    s.append(decimal_string(n).as_str());
    s.append(tail);
    s
}

fn report_count(r: Result<usize, BufferError>, head: &str, tail: &str) -> (out: Result<CommandOutput, CommandError>)
    ensures
        result_model(out) == counted(r, head@, tail@),
{
    match r {
        Ok(n) => Ok(CommandOutput::ok(count_message(head, n as u64, tail))),
        Err(e) => Err(buffer_failure_of(e)),
    }
}

fn report_history(r: Result<Option<EditTransaction>, BufferError>, head: &str, nothing: &str) -> (out: Result<CommandOutput, CommandError>)
    ensures
        result_model(out) == history_report(r, head@, nothing@),
{
    match r {
        Ok(Some(tx)) => Ok(CommandOutput::ok(count_message(head, tx.len() as u64, " edit(s)"))),
        Ok(None) => Ok(CommandOutput::ok(nothing.to_owned())),
        Err(e) => Err(buffer_failure_of(e)),
    }
}

#[verifier::spinoff_prover]
#[verifier::rlimit(40)]
fn run_handler(state: &mut AppState, h: CommandHandler, args: &CommandArgs) -> (r: Result<CommandOutput, CommandError>)
    requires
        old(state).wf(),
    ensures
        handler_outcome(h, args@, *old(state), result_model(r), *final(state)),
        final(state).wf(),
{
    match h {
        CommandHandler::NewFile => {
            let (_buffer_id, view_id) = state.create_empty_buffer_and_view();
            proof {
                reveal_strlit("");
            }
            let out = Ok(CommandOutput::ok(count_message("created view ", view_id.0, "")));
            proof {
                assert(handler_outcome(h, args@, *old(state), result_model(out), *state));
            }
            out
        },
        CommandHandler::InsertText => {
            let text = match args.text("text") {
                Some(t) => t,
                None => return Err(CommandError::MissingArgument("text".to_owned())),
            };
            let r0 = state.replace_active_selections(text);
            let out = match r0 {
                Ok(n) => {
                    let mut s = count_message("updated ", n as u64, " selection(s) with ");
                    s.append(decimal_string(crate::trusted::str_byte_len(text) as u64).as_str());
                    s.append(" bytes");
                    Ok(CommandOutput::ok(s))
                },
                Err(e) => Err(buffer_failure_of(e)),
            };
            proof {
                let t = text_arg(args@, "text"@)->Some_0;
                assert(t == text@);
                assert(typing_outcome(old(state), encode_utf8(t), r0, state));
                assert(result_model(out) == (match r0 {
                    Ok(n) => Ok(Some("updated "@ + decimal(n as nat) + " selection(s) with "@ + decimal(encode_utf8(t).len()) + " bytes"@)),
                    Err(e) => Err(buffer_failure(e)),
                }));
                assert(handler_outcome(h, args@, *old(state), result_model(out), *state));
            }
            out
        },
        CommandHandler::DeleteBackward => {
            let out = report_count(state.delete_backward_from_active_selections(), "deleted across ", " selection(s)");
            proof {
                assert(handler_outcome(h, args@, *old(state), result_model(out), *state));
            }
            out
        },
        CommandHandler::DeleteForward => {
            let out = report_count(state.delete_forward_from_active_selections(), "forward-deleted across ", " selection(s)");
            proof {
                assert(handler_outcome(h, args@, *old(state), result_model(out), *state));
            }
            out
        },
        CommandHandler::MoveLeft => {
            let out = report_count(state.move_caret_left(), "moved ", " selection(s) left");
            proof {
                assert(handler_outcome(h, args@, *old(state), result_model(out), *state));
            }
            out
        },
        CommandHandler::MoveRight => {
            let out = report_count(state.move_caret_right(), "moved ", " selection(s) right");
            proof {
                assert(handler_outcome(h, args@, *old(state), result_model(out), *state));
            }
            out
        },
        CommandHandler::MoveToBeginningOfLine => {
            let out = report_count(state.move_to_beginning_of_line(), "moved ", " selection(s) to line start");
            proof {
                assert(handler_outcome(h, args@, *old(state), result_model(out), *state));
            }
            out
        },
        CommandHandler::MoveToEndOfLine => {
            let out = report_count(state.move_to_end_of_line(), "moved ", " selection(s) to line end");
            proof {
                assert(handler_outcome(h, args@, *old(state), result_model(out), *state));
            }
            out
        },
        CommandHandler::MoveUp => {
            let out = report_count(state.move_caret_up(), "moved ", " selection(s) up");
            proof {
                assert(handler_outcome(h, args@, *old(state), result_model(out), *state));
            }
            out
        },
        CommandHandler::MoveDown => {
            let out = report_count(state.move_caret_down(), "moved ", " selection(s) down");
            proof {
                assert(handler_outcome(h, args@, *old(state), result_model(out), *state));
            }
            out
        },
        CommandHandler::SelectLine => {
            let out = report_count(state.select_current_lines(), "selected ", " line(s)");
            proof {
                assert(handler_outcome(h, args@, *old(state), result_model(out), *state));
            }
            out
        },
        CommandHandler::DuplicateLine => {
            let out = report_count(state.duplicate_current_lines(), "duplicated ", " line selection(s)");
            proof {
                assert(handler_outcome(h, args@, *old(state), result_model(out), *state));
            }
            out
        },
        CommandHandler::DeleteToBeginningOfLine => {
            let out = report_count(state.delete_to_beginning_of_line(), "deleted to line start for ", " selection(s)");
            proof {
                assert(handler_outcome(h, args@, *old(state), result_model(out), *state));
            }
            out
        },
        CommandHandler::DeleteToEndOfLine => {
            let out = report_count(state.delete_to_end_of_line(), "deleted to line end for ", " selection(s)");
            proof {
                assert(handler_outcome(h, args@, *old(state), result_model(out), *state));
            }
            out
        },
        CommandHandler::InsertLineAfter => {
            let text = match args.text("text") {
                Some(t) => t,
                None => {
                    proof {
                        reveal_strlit("");
                    }
                    ""
                },
            };
            proof {
                if text_arg(args@, "text"@) is None {
                    assert(text@ == Seq::<char>::empty());
                    assert(encode_utf8(Seq::<char>::empty()) == Seq::<u8>::empty());
                }
                assert(text.spec_bytes() == line_text_arg(args@));
            }
            let out = report_count(state.insert_line_after(text), "inserted line after for ", " selection(s)");
            proof {
                assert(handler_outcome(h, args@, *old(state), result_model(out), *state));
            }
            out
        },
        CommandHandler::InsertLineBefore => {
            let text = match args.text("text") {
                Some(t) => t,
                None => {
                    proof {
                        reveal_strlit("");
                    }
                    ""
                },
            };
            proof {
                if text_arg(args@, "text"@) is None {
                    assert(text@ == Seq::<char>::empty());
                    assert(encode_utf8(Seq::<char>::empty()) == Seq::<u8>::empty());
                }
                assert(text.spec_bytes() == line_text_arg(args@));
            }
            let out = report_count(state.insert_line_before(text), "inserted line before for ", " selection(s)");
            proof {
                assert(handler_outcome(h, args@, *old(state), result_model(out), *state));
            }
            out
        },
        CommandHandler::MoveLinesUp => {
            let out = report_count(state.move_selected_lines_up(), "moved ", " line block(s) up");
            proof {
                assert(handler_outcome(h, args@, *old(state), result_model(out), *state));
            }
            out
        },
        CommandHandler::MoveLinesDown => {
            let out = report_count(state.move_selected_lines_down(), "moved ", " line block(s) down");
            proof {
                assert(handler_outcome(h, args@, *old(state), result_model(out), *state));
            }
            out
        },
        CommandHandler::SplitSelectionIntoLines => {
            let out = report_count(state.split_selection_into_lines(), "split into ", " caret(s)");
            proof {
                assert(handler_outcome(h, args@, *old(state), result_model(out), *state));
            }
            out
        },
        CommandHandler::GotoLine => {
            let line = match args.unsigned("line") {
                Some(n) => n as usize,
                None => return Err(CommandError::MissingArgument("line".to_owned())),
            };
            let r0 = state.goto_line(line);
            let tail = count_message(" caret(s) to line ", line as u64, "");
            proof {
                reveal_strlit("");
            }
            let out = report_count(r0, "moved ", tail.as_str());
            proof {
                assert(goto_outcome(old(state), line, r0, state));
                assert(handler_outcome(h, args@, *old(state), result_model(out), *state));
            }
            out
        },
        CommandHandler::SelectAll => {
            let r0 = state.select_all();
            let out = match r0 {
                Ok(region) => Ok(CommandOutput::ok(count_message("selected ", (region.end() - region.begin()) as u64, " bytes"))),
                Err(e) => Err(buffer_failure_of(e)),
            };
            proof {
                assert(select_all_outcome(old(state), r0, state));
                assert(handler_outcome(h, args@, *old(state), result_model(out), *state));
            }
            out
        },
        CommandHandler::Undo => {
            let out = report_history(state.undo(), "undid ", "nothing to undo");
            proof {
                assert(handler_outcome(h, args@, *old(state), result_model(out), *state));
            }
            out
        },
        CommandHandler::Redo => {
            let out = report_history(state.redo(), "redid ", "nothing to redo");
            proof {
                assert(handler_outcome(h, args@, *old(state), result_model(out), *state));
            }
            out
        },
        CommandHandler::BufferInfo => {
            proof {
                state.lemma_active();
            }
            let buffer = match state.active_buffer() {
                Some(b) => b,
                None => return Err(CommandError::NoActiveView),
            };
            let view = match state.active_view() {
                Some(v) => v,
                None => return Err(CommandError::NoActiveView),
            };
            let caret = match view.sel().last() {
                Some(region) => region.caret(),
                None => 0,
            };
            let (row, col) = match buffer.row_col(caret) {
                Ok(rc) => rc,
                Err(e) => return Err(buffer_failure_of(e)),
            };
            let mut s = count_message("len=", buffer.len() as u64, ", lines=");
            s.append(decimal_string(buffer.line_count() as u64).as_str());
            s.append(", selections=");
            s.append(decimal_string(view.selection_count() as u64).as_str());
            s.append(", caret=(");
            s.append(decimal_string(row as u64).as_str());
            s.append(", ");
            s.append(decimal_string(col as u64).as_str());
            s.append(")");
            let out = Ok(CommandOutput::ok(s));
            proof {
                assert(result_model(out) == buffer_info_report(state.model(), state.active_buffer_index(), state.active_view_index()));
                assert(handler_outcome(h, args@, *old(state), result_model(out), *state));
            }
            out
        },
    }
}

impl NeedleApp {
    /// Runs the command registered under `name` on the state with the arguments of `invocation`.
    pub fn execute_command(&mut self, name: &str, invocation: CommandInvocation) -> (r: Result<CommandOutput, CommandError>)
        requires
            old(self).wf(),
        ensures
            find_key(old(self).commands_model(), name@) < 0 ==> result_model(r) == Err::<Option<Seq<char>>, CommandErrorModel>(
                CommandErrorModel::NotFound(name@),
            ) && final(self).app_state() == old(self).app_state(),
            find_key(old(self).commands_model(), name@) >= 0 ==> handler_outcome(
                old(self).commands_model()[find_key(old(self).commands_model(), name@)].1.1,
                invocation.args@,
                old(self).app_state(),
                result_model(r),
                final(self).app_state(),
            ),
            final(self).name_model() == old(self).name_model(),
            final(self).commands_model() == old(self).commands_model(),
            final(self).wf(),
    {
        let handler = match self.commands.handler(name) {
            Some(h) => h,
            None => return Err(CommandError::NotFound(name.to_owned())),
        };
        run_handler(&mut self.state, handler, &invocation.args)
    }
}

} // verus!
