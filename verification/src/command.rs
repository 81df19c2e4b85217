//! The commands of the command line, as a machine of steps.
//!
//! A command cannot ask for a passphrase by itself.  It runs until it needs
//! one and hands back what is pending; whoever drives it asks for the
//! passphrase and resumes.  What a command prints, reads or writes outside
//! the store and the environment it hands back as its outcome.

use crate::envs::entries_map;
use crate::envs::export_text;
use crate::envs::names;
use crate::envs::EnvMap;
use crate::envs::EnvVar;
use crate::envs::Entry;
use crate::error::CryptoError;
use crate::error::StoreError;
use crate::lifecycle::Env;
use crate::lifecycle::Lifecycle;
use crate::lifecycle::LifecycleModel;
use crate::profile::get_profile;
use crate::profile::readable;
use crate::profile::Profile;
use crate::store::listed_after_write;
use crate::store::Store;
use crate::store::StoreModel;
use crate::table::same_text;
use crate::text::chars_of;
use crate::text::find_char;
use crate::text::first_at;
use crate::text::lemma_first_at;
use crate::text::valid_name;
use vstd::prelude::*;
use vstd::string::StrSliceExecFns;

verus! {

/// Whether `Url::parse` of the crate url accepts a text.
pub uninterp spec fn url_parses(input: Seq<char>) -> bool;

/// `Url::parse` of the crate url, asked only whether it accepts the text.
/// The answer depends on the text alone.
#[verifier::external_body]
fn parses_as_url(input: &str) -> (accepted: bool)
    ensures
        accepted == url_parses(input@),
{
    url::Url::parse(input).is_ok()
}

/// The arguments of a command.
#[derive(Clone, Debug)]
pub struct CommandArgs {
    pub args: Vec<String>,
}

/// A command of the command line.
#[derive(Clone, Debug)]
pub enum Command {
    /// Creates an empty profile: `create <profile>`.
    Create(CommandArgs),
    /// Adds variables to a profile: `add <profile> <NAME=VALUE>...`.
    Add(CommandArgs),
    /// Loads a profile into the environment: `load <profile>`.
    Load(CommandArgs),
    /// Takes a profile out of the environment: `unload <profile>`.
    Unload(CommandArgs),
    /// Deletes a profile, or variables of it: `remove <profile> [NAME]...`.
    Remove(CommandArgs),
    /// Lists the profiles, or the variables of one: `list profiles`,
    /// `list <profile>`.
    List(CommandArgs),
    /// Gives variables of a profile new values:
    /// `update <profile> <NAME=VALUE>...`.
    Update(CommandArgs),
    /// Writes the variables of a profile to a file as plain text:
    /// `export <profile> [file]`.
    Export(CommandArgs),
    /// Stores a container from a file or a URL as a new profile:
    /// `import <file or url> <profile>`.
    Import(CommandArgs),
    /// Shows the version: `version [verbose]`.
    Version(CommandArgs),
}

/// Which command a command is.
#[derive(Clone, Copy, Debug, PartialEq, Eq, Structural)]
pub enum CommandKind {
    Create,
    Add,
    Load,
    Unload,
    Remove,
    List,
    Update,
    Export,
    Import,
    Version,
}

/// Why a command was not carried out.
#[derive(Clone, Copy, Debug, PartialEq, Eq, Structural)]
pub enum Notice {
    /// Too few arguments.
    InvalidArgumentCount,
    /// An argument is not of the form `NAME=VALUE`.
    CannotParse,
    /// The variable to add is set already.
    KeyExists,
    /// The variable to update is not set.
    KeyMissing,
    /// The profile to import is stored already.
    ProfileExists,
    /// The name for the imported profile is missing.
    MissingProfileName,
    /// The argument is not one that the command knows.
    InvalidArgument,
}

/// Which passphrase to ask for.
#[derive(Clone, Copy, Debug, PartialEq, Eq, Structural)]
pub enum Prompt {
    /// A new passphrase, for a profile that is being created.
    NewKey,
    /// The passphrase of a stored profile.
    Key,
}

/// How a command ended, and what is left to do outside the library.
#[derive(Clone, Debug)]
pub enum Outcome {
    /// Nothing was done, for the reason given.
    Failed(Notice),
    /// The profile is not stored, or the passphrase does not open it.
    Unavailable,
    /// The profile was created.
    Created,
    /// The profile was not created.
    CreateFailed(StoreError),
    /// The changed profile was stored.
    Saved,
    /// The changed profile was not stored.
    SaveFailed(StoreError),
    /// The profile was loaded into the environment.
    Loaded,
    /// The profile was taken out of the environment.
    Unloaded,
    /// The profile was deleted.
    Deleted,
    /// The profile was not deleted.
    DeleteFailed(StoreError),
    /// The names of the stored profiles, to show.
    Profiles(Vec<String>),
    /// The variables of the profile, to show.
    Variables(Vec<EnvVar>),
    /// Text to write to the file at `path`.
    Export { path: String, text: String },
    /// A container to fetch from `url` and import as `name`.
    Fetch { url: String, name: String },
    /// A container to read from the file at `path` and import as `name`.
    ReadFile { path: String, name: String },
    /// The version to show, with or without the details of the build.
    Version { verbose: bool },
}

/// What a command waits to do once it has a passphrase.
#[derive(Clone, Debug)]
pub enum Pending {
    /// To create the profile `name`.
    Create { name: String },
    /// To open the profile that the command names, and go on with it.
    Open { command: Command },
    /// To store the changed profile.
    Save { profile: Profile },
}

/// One step of a command: it is done, or it asks for a passphrase.
#[derive(Clone, Debug)]
pub enum Step {
    /// The command has ended.
    Done(Outcome),
    /// The command goes on once it is resumed with the passphrase asked for.
    Ask(Prompt, Pending),
}

/// The texts of a list of strings.
pub open spec fn texts_of(list: Seq<String>) -> Seq<Seq<char>> {
    Seq::new(list.len(), |i: int| list[i]@)
}

/// The variables of a list, as pairs of texts.
pub open spec fn vars_of(list: Seq<EnvVar>) -> Seq<Entry> {
    Seq::new(list.len(), |i: int| (list[i].key@, list[i].value@))
}

/// An outcome as plain values.
pub enum OutcomeModel {
    Failed(Notice),
    Unavailable,
    Created,
    CreateFailed(StoreError),
    Saved,
    SaveFailed(StoreError),
    Loaded,
    Unloaded,
    Deleted,
    DeleteFailed(StoreError),
    Profiles(Seq<Seq<char>>),
    Variables(Seq<Entry>),
    Export { path: Seq<char>, text: Seq<char> },
    Fetch { url: Seq<char>, name: Seq<char> },
    ReadFile { path: Seq<char>, name: Seq<char> },
    Version { verbose: bool },
}

/// What is pending, as plain values.
pub enum PendingModel {
    Create { name: Seq<char> },
    Open { kind: CommandKind, args: Seq<Seq<char>> },
    Save { name: Seq<char>, envs: Env },
}

impl PendingModel {
    /// The name of the profile that is waited on.
    pub open spec fn name(self) -> Seq<char> {
        match self {
            PendingModel::Create { name } => name,
            PendingModel::Open { kind, args } => args[0],
            PendingModel::Save { name, envs } => name,
        }
    }
}

/// A step as plain values.
pub enum StepModel {
    Done(OutcomeModel),
    Ask(Prompt, PendingModel),
}

impl View for Outcome {
    type V = OutcomeModel;

    open spec fn view(&self) -> OutcomeModel {
        match *self {
            Outcome::Failed(n) => OutcomeModel::Failed(n),
            Outcome::Unavailable => OutcomeModel::Unavailable,
            Outcome::Created => OutcomeModel::Created,
            Outcome::CreateFailed(e) => OutcomeModel::CreateFailed(e),
            Outcome::Saved => OutcomeModel::Saved,
            Outcome::SaveFailed(e) => OutcomeModel::SaveFailed(e),
            Outcome::Loaded => OutcomeModel::Loaded,
            Outcome::Unloaded => OutcomeModel::Unloaded,
            Outcome::Deleted => OutcomeModel::Deleted,
            Outcome::DeleteFailed(e) => OutcomeModel::DeleteFailed(e),
            Outcome::Profiles(list) => OutcomeModel::Profiles(texts_of(list@)),
            Outcome::Variables(list) => OutcomeModel::Variables(vars_of(list@)),
            Outcome::Export { path, text } => OutcomeModel::Export { path: path@, text: text@ },
            Outcome::Fetch { url, name } => OutcomeModel::Fetch { url: url@, name: name@ },
            Outcome::ReadFile { path, name } => OutcomeModel::ReadFile { path: path@, name: name@ },
            Outcome::Version { verbose } => OutcomeModel::Version { verbose },
        }
    }
}

impl View for Pending {
    type V = PendingModel;

    open spec fn view(&self) -> PendingModel {
        match *self {
            Pending::Create { name } => PendingModel::Create { name: name@ },
            Pending::Open { command } => PendingModel::Open {
                kind: command.kind_of(),
                args: command.arg_texts(),
            },
            Pending::Save { profile } => PendingModel::Save {
                name: profile.name@,
                envs: profile.envs@,
            },
        }
    }
}

impl View for Step {
    type V = StepModel;

    open spec fn view(&self) -> StepModel {
        match *self {
            Step::Done(outcome) => StepModel::Done(outcome@),
            Step::Ask(prompt, pending) => StepModel::Ask(prompt, pending@),
        }
    }
}

/// The variable that an argument `NAME=VALUE` sets: the name is what stands
/// before the first `=` and must not be empty, the value what stands between
/// the first `=` and the next, or the end.
pub open spec fn assignment(arg: Seq<char>) -> Option<Entry> {
    let eq = first_at(arg, '=', 0);
    if eq >= arg.len() || eq == 0 {
        None
    } else {
        Some((arg.subrange(0, eq), arg.subrange(eq + 1, first_at(arg, '=', eq + 1))))
    }
}

/// Reads an argument of the form `NAME=VALUE`.
pub fn parse_assignment(arg: &str) -> (parsed: Option<(String, String)>)
    ensures
        match parsed {
            Some((key, value)) => assignment(arg@) == Some((key@, value@)) && valid_name(key@),
            None => assignment(arg@) is None,
        },
{
    let chars = chars_of(arg);
    let eq = find_char(&chars, '=', 0);
    if eq >= chars.len() || eq == 0 {
        return None;
    }
    let end = find_char(&chars, '=', eq + 1);
    let key = arg.substring_char(0, eq).to_owned();
    let value = arg.substring_char(eq + 1, end).to_owned();
    proof {
        lemma_first_at(arg@, '=', 0);
        if key@.contains('=') {
            let i = key@.index_of('=');
            assert(key@[i] == '=');
            assert(arg@[i] == '=');
        }
    }
    Some((key, value))
}

/// The variables after those of the arguments from `from` on were added:
/// each argument must read as `NAME=VALUE` and name a variable that is not
/// set yet.
pub open spec fn added(envs: Env, args: Seq<Seq<char>>, from: int) -> Result<Env, Notice>
    decreases args.len() - from,
{
    if from >= args.len() {
        Ok(envs)
    } else {
        match assignment(args[from]) {
            None => Err(Notice::CannotParse),
            Some((key, value)) => if envs.contains_key(key) {
                Err(Notice::KeyExists)
            } else {
                added(envs.insert(key, value), args, from + 1)
            },
        }
    }
}

/// The variables after those of the arguments from `from` on were given new
/// values: each argument must read as `NAME=VALUE` and name a variable that
/// is set.
pub open spec fn updated(envs: Env, args: Seq<Seq<char>>, from: int) -> Result<Env, Notice>
    decreases args.len() - from,
{
    if from >= args.len() {
        Ok(envs)
    } else {
        match assignment(args[from]) {
            None => Err(Notice::CannotParse),
            Some((key, value)) => if envs.contains_key(key) {
                updated(envs.insert(key, value), args, from + 1)
            } else {
                Err(Notice::KeyMissing)
            },
        }
    }
}

/// The variables as they stand when adding the arguments from `from` on
/// ends: with all of them added, or with those before the first that cannot
/// be added.
pub open spec fn added_so_far(envs: Env, args: Seq<Seq<char>>, from: int) -> Env
    decreases args.len() - from,
{
    if from >= args.len() {
        envs
    } else {
        match assignment(args[from]) {
            None => envs,
            Some((key, value)) => if envs.contains_key(key) {
                envs
            } else {
                added_so_far(envs.insert(key, value), args, from + 1)
            },
        }
    }
}

/// The variables as they stand when updating by the arguments from `from`
/// on ends: with all of them applied, or with those before the first that
/// cannot be applied.
pub open spec fn updated_so_far(envs: Env, args: Seq<Seq<char>>, from: int) -> Env
    decreases args.len() - from,
{
    if from >= args.len() {
        envs
    } else {
        match assignment(args[from]) {
            None => envs,
            Some((key, value)) => if envs.contains_key(key) {
                updated_so_far(envs.insert(key, value), args, from + 1)
            } else {
                envs
            },
        }
    }
}

/// The variables after those named by the arguments from `from` on were
/// taken out.
pub open spec fn removed(envs: Env, args: Seq<Seq<char>>, from: int) -> Env
    decreases args.len() - from,
{
    if from >= args.len() {
        envs
    } else {
        removed(envs.remove(args[from]), args, from + 1)
    }
}

/// Adds to `profile` the variables that the arguments after the first set.
/// Stops at the first argument that cannot be added; what was added before
/// it stays.
pub fn apply_additions(profile: &mut Profile, args: &Vec<String>) -> (result: Result<(), Notice>)
    requires
        old(profile).wf(),
    ensures
        final(profile).wf(),
        final(profile).name == old(profile).name,
        final(profile).envs@ == added_so_far(old(profile).envs@, texts_of(args@), 1),
        match result {
            Ok(_) => added(old(profile).envs@, texts_of(args@), 1) == Ok::<Env, Notice>(
                final(profile).envs@,
            ),
            Err(notice) => added(old(profile).envs@, texts_of(args@), 1) == Err::<Env, Notice>(
                notice,
            ),
        },
{
    let ghost envs0 = profile.envs@;
    let ghost name0 = profile.name;
    let ghost texts = texts_of(args@);
    let mut i: usize = 1;
    while i < args.len()
        invariant
            1 <= i,
            texts == texts_of(args@),
            profile.wf(),
            profile.name == name0,
            name0 == old(profile).name,
            envs0 == old(profile).envs@,
            added(envs0, texts, 1) == added(profile.envs@, texts, i as int),
            added_so_far(envs0, texts, 1) == added_so_far(profile.envs@, texts, i as int),
        decreases args@.len() - i,
    {
        assert(texts[i as int] == args@[i as int]@);
        match parse_assignment(args[i].as_str()) {
            None => {
                return Err(Notice::CannotParse);
            },
            Some((key, value)) => {
                if profile.envs.contains_key(key.as_str()) {
                    return Err(Notice::KeyExists);
                }
                profile.add_env(key, value);
            },
        }
        i += 1;
    }
    Ok(())
}

/// Gives the variables of `profile` the values that the arguments after the
/// first set.  Stops at the first argument that cannot be applied; what was
/// applied before it stays.
pub fn apply_updates(profile: &mut Profile, args: &Vec<String>) -> (result: Result<(), Notice>)
    requires
        old(profile).wf(),
    ensures
        final(profile).wf(),
        final(profile).name == old(profile).name,
        final(profile).envs@ == updated_so_far(old(profile).envs@, texts_of(args@), 1),
        match result {
            Ok(_) => updated(old(profile).envs@, texts_of(args@), 1) == Ok::<Env, Notice>(
                final(profile).envs@,
            ),
            Err(notice) => updated(old(profile).envs@, texts_of(args@), 1) == Err::<Env, Notice>(
                notice,
            ),
        },
{
    let ghost envs0 = profile.envs@;
    let ghost name0 = profile.name;
    let ghost texts = texts_of(args@);
    let mut i: usize = 1;
    while i < args.len()
        invariant
            1 <= i,
            texts == texts_of(args@),
            profile.wf(),
            profile.name == name0,
            name0 == old(profile).name,
            envs0 == old(profile).envs@,
            updated(envs0, texts, 1) == updated(profile.envs@, texts, i as int),
            updated_so_far(envs0, texts, 1) == updated_so_far(profile.envs@, texts, i as int),
        decreases args@.len() - i,
    {
        assert(texts[i as int] == args@[i as int]@);
        match parse_assignment(args[i].as_str()) {
            None => {
                return Err(Notice::CannotParse);
            },
            Some((key, value)) => {
                if !profile.envs.contains_key(key.as_str()) {
                    return Err(Notice::KeyMissing);
                }
                profile.edit_env(key, value);
            },
        }
        i += 1;
    }
    Ok(())
}

/// Takes out of `profile` the variables that the arguments after the first
/// name.
pub fn apply_removals(profile: &mut Profile, args: &Vec<String>)
    requires
        old(profile).wf(),
    ensures
        final(profile).wf(),
        final(profile).name == old(profile).name,
        final(profile).envs@ == removed(old(profile).envs@, texts_of(args@), 1),
{
    let ghost envs0 = profile.envs@;
    let ghost name0 = profile.name;
    let ghost texts = texts_of(args@);
    let mut i: usize = 1;
    while i < args.len()
        invariant
            1 <= i,
            texts == texts_of(args@),
            profile.wf(),
            profile.name == name0,
            name0 == old(profile).name,
            envs0 == old(profile).envs@,
            removed(envs0, texts, 1) == removed(profile.envs@, texts, i as int),
        decreases args@.len() - i,
    {
        assert(texts[i as int] == args@[i as int]@);
        profile.remove_env(args[i].as_str());
        i += 1;
    }
}

impl Notice {
    /// The words of the notice.
    pub open spec fn words(self) -> Seq<char> {
        match self {
            Notice::InvalidArgumentCount => "Invalid number of arguments"@,
            Notice::CannotParse => "Can not parse arguments"@,
            Notice::KeyExists =>
                "Key already exists in profile use the update command to update the value"@,
            Notice::KeyMissing =>
                "Key does not exists in profile use the `add` command to add the key"@,
            Notice::ProfileExists => "Profile already exists"@,
            Notice::MissingProfileName => "Please provide a profile name"@,
            Notice::InvalidArgument => "Invalid argument"@,
        }
    }

    /// The notice in words, as it is shown after `Error:`.
    pub fn text(&self) -> (text: &'static str)
        ensures
            text@ == self.words(),
    {
        match self {
            Notice::InvalidArgumentCount => "Invalid number of arguments",
            Notice::CannotParse => "Can not parse arguments",
            Notice::KeyExists =>
                "Key already exists in profile use the update command to update the value",
            Notice::KeyMissing =>
                "Key does not exists in profile use the `add` command to add the key",
            Notice::ProfileExists => "Profile already exists",
            Notice::MissingProfileName => "Please provide a profile name",
            Notice::InvalidArgument => "Invalid argument",
        }
    }
}

/// What a command does first, given what is stored: it fails for want of
/// arguments, it is done without a passphrase, or it asks for one.
pub open spec fn first_step(
    kind: CommandKind,
    args: Seq<Seq<char>>,
    store: StoreModel,
    stored_names: Seq<Seq<char>>,
) -> StepModel {
    let too_few = StepModel::Done(OutcomeModel::Failed(Notice::InvalidArgumentCount));
    let ask = StepModel::Ask(Prompt::Key, PendingModel::Open { kind, args });
    match kind {
        CommandKind::Create => if args.len() == 0 {
            too_few
        } else {
            StepModel::Ask(Prompt::NewKey, PendingModel::Create { name: args[0] })
        },
        CommandKind::Add | CommandKind::Update => if args.len() <= 1 {
            too_few
        } else {
            ask
        },
        CommandKind::Load | CommandKind::Unload | CommandKind::Export => if args.len() == 0 {
            too_few
        } else {
            ask
        },
        CommandKind::Remove => if args.len() == 0 {
            too_few
        } else if args.len() == 1 {
            if store.contents.contains_key(args[0]) {
                StepModel::Done(OutcomeModel::Deleted)
            } else {
                StepModel::Done(OutcomeModel::DeleteFailed(StoreError::NotFound))
            }
        } else {
            ask
        },
        CommandKind::List => if args.len() == 0 {
            too_few
        } else if args[0] == "profiles"@ {
            StepModel::Done(OutcomeModel::Profiles(stored_names))
        } else {
            ask
        },
        CommandKind::Import => if args.len() == 0 {
            too_few
        } else if args.len() < 2 {
            StepModel::Done(OutcomeModel::Failed(Notice::MissingProfileName))
        } else if store.contents.contains_key(args[1]) {
            StepModel::Done(OutcomeModel::Failed(Notice::ProfileExists))
        } else {
            StepModel::Done(import_outcome(url_parses(args[0]), args[0], args[1]))
        },
        CommandKind::Version => if args.len() == 0 {
            StepModel::Done(OutcomeModel::Version { verbose: false })
        } else if args[0] == "verbose"@ {
            StepModel::Done(OutcomeModel::Version { verbose: true })
        } else {
            StepModel::Done(OutcomeModel::Failed(Notice::InvalidArgument))
        },
    }
}

/// What is stored after the first step of a command: all that was stored
/// before, but for the profile that a removal with one argument names.
pub open spec fn stored_after_first(kind: CommandKind, args: Seq<Seq<char>>, store: StoreModel) -> Map<
    Seq<char>,
    crate::container::ContainerView,
> {
    if kind == CommandKind::Remove && args.len() == 1 {
        store.contents.remove(args[0])
    } else {
        store.contents
    }
}

/// The names of the stored profiles after the first step of a command.
pub open spec fn listed_after_first(
    kind: CommandKind,
    args: Seq<Seq<char>>,
    stored_names: Seq<Seq<char>>,
) -> Seq<Seq<char>> {
    if kind == CommandKind::Remove && args.len() == 1 && stored_names.contains(args[0]) {
        stored_names.remove(stored_names.index_of(args[0]))
    } else {
        stored_names
    }
}

/// How a container comes in: fetched where the source reads as a URL, read
/// from a file where it does not.
pub open spec fn import_outcome(is_url: bool, source: Seq<char>, name: Seq<char>) -> OutcomeModel {
    if is_url {
        OutcomeModel::Fetch { url: source, name }
    } else {
        OutcomeModel::ReadFile { path: source, name }
    }
}

/// Says how the container at `source` is to come in, given whether `source`
/// reads as a URL.
pub fn import_from(is_url: bool, source: &String, name: &String) -> (outcome: Outcome)
    ensures
        outcome@ == import_outcome(is_url, source@, name@),
{
    if is_url {
        Outcome::Fetch { url: source.clone(), name: name.clone() }
    } else {
        Outcome::ReadFile { path: source.clone(), name: name.clone() }
    }
}

/// What a command does with the profile that it opened.
pub open spec fn opened_step(kind: CommandKind, args: Seq<Seq<char>>, envs: Seq<Entry>) -> StepModel
    recommends
        args.len() >= 1,
{
    let name = args[0];
    match kind {
        CommandKind::Add => match added(entries_map(envs), args, 1) {
            Ok(changed) => StepModel::Ask(Prompt::Key, PendingModel::Save { name, envs: changed }),
            Err(notice) => StepModel::Done(OutcomeModel::Failed(notice)),
        },
        CommandKind::Update => match updated(entries_map(envs), args, 1) {
            Ok(changed) => StepModel::Ask(Prompt::Key, PendingModel::Save { name, envs: changed }),
            Err(notice) => StepModel::Done(OutcomeModel::Failed(notice)),
        },
        CommandKind::Remove => StepModel::Ask(
            Prompt::Key,
            PendingModel::Save { name, envs: removed(entries_map(envs), args, 1) },
        ),
        CommandKind::Load => StepModel::Done(OutcomeModel::Loaded),
        CommandKind::Unload => StepModel::Done(OutcomeModel::Unloaded),
        CommandKind::List => StepModel::Done(OutcomeModel::Variables(envs)),
        CommandKind::Export => StepModel::Done(
            OutcomeModel::Export {
                path: if args.len() > 1 {
                    args[1]
                } else {
                    ".env"@
                },
                text: export_text(envs),
            },
        ),
        _ => StepModel::Done(OutcomeModel::Failed(Notice::InvalidArgument)),
    }
}

/// The manager's state after a command went on with the profile it opened:
/// loading and unloading change it, nothing else does.
pub open spec fn lifecycle_after(
    kind: CommandKind,
    name: Seq<char>,
    envs: Env,
    state: LifecycleModel,
) -> LifecycleModel {
    match kind {
        CommandKind::Load => state.loaded(name, envs),
        CommandKind::Unload => state.unloaded(name),
        _ => state,
    }
}

impl Command {
    /// Which command this is.
    pub open spec fn kind_of(&self) -> CommandKind {
        match *self {
            Command::Create(_) => CommandKind::Create,
            Command::Add(_) => CommandKind::Add,
            Command::Load(_) => CommandKind::Load,
            Command::Unload(_) => CommandKind::Unload,
            Command::Remove(_) => CommandKind::Remove,
            Command::List(_) => CommandKind::List,
            Command::Update(_) => CommandKind::Update,
            Command::Export(_) => CommandKind::Export,
            Command::Import(_) => CommandKind::Import,
            Command::Version(_) => CommandKind::Version,
        }
    }

    /// The arguments of the command.
    pub open spec fn arg_list(&self) -> Seq<String> {
        match *self {
            Command::Create(a) => a.args@,
            Command::Add(a) => a.args@,
            Command::Load(a) => a.args@,
            Command::Unload(a) => a.args@,
            Command::Remove(a) => a.args@,
            Command::List(a) => a.args@,
            Command::Update(a) => a.args@,
            Command::Export(a) => a.args@,
            Command::Import(a) => a.args@,
            Command::Version(a) => a.args@,
        }
    }

    /// The arguments of the command, as texts.
    pub open spec fn arg_texts(&self) -> Seq<Seq<char>> {
        texts_of(self.arg_list())
    }

    /// Which command this is.
    pub fn kind(&self) -> (kind: CommandKind)
        ensures
            kind == self.kind_of(),
    {
        match self {
            Command::Create(_) => CommandKind::Create,
            Command::Add(_) => CommandKind::Add,
            Command::Load(_) => CommandKind::Load,
            Command::Unload(_) => CommandKind::Unload,
            Command::Remove(_) => CommandKind::Remove,
            Command::List(_) => CommandKind::List,
            Command::Update(_) => CommandKind::Update,
            Command::Export(_) => CommandKind::Export,
            Command::Import(_) => CommandKind::Import,
            Command::Version(_) => CommandKind::Version,
        }
    }

    /// The arguments of the command.
    pub fn args(&self) -> (args: &Vec<String>)
        ensures
            args@ == self.arg_list(),
    {
        match self {
            Command::Create(a) => &a.args,
            Command::Add(a) => &a.args,
            Command::Load(a) => &a.args,
            Command::Unload(a) => &a.args,
            Command::Remove(a) => &a.args,
            Command::List(a) => &a.args,
            Command::Update(a) => &a.args,
            Command::Export(a) => &a.args,
            Command::Import(a) => &a.args,
            Command::Version(a) => &a.args,
        }
    }

    /// A copy of the command.
    pub fn duplicate(&self) -> (copy: Command)
        ensures
            copy.kind_of() == self.kind_of(),
            copy.arg_texts() == self.arg_texts(),
    {
        let source = self.args();
        let mut args: Vec<String> = Vec::new();
        let mut i: usize = 0;
        while i < source.len()
            invariant
                0 <= i <= source@.len(),
                args@.len() == i,
                forall|j: int| 0 <= j < i ==> (#[trigger] args@[j])@ == source@[j]@,
            decreases source@.len() - i,
        {
            args.push(source[i].clone());
            i += 1;
        }
        assert(texts_of(args@) =~= texts_of(source@));
        let args = CommandArgs { args };
        match self {
            Command::Create(_) => Command::Create(args),
            Command::Add(_) => Command::Add(args),
            Command::Load(_) => Command::Load(args),
            Command::Unload(_) => Command::Unload(args),
            Command::Remove(_) => Command::Remove(args),
            Command::List(_) => Command::List(args),
            Command::Update(_) => Command::Update(args),
            Command::Export(_) => Command::Export(args),
            Command::Import(_) => Command::Import(args),
            Command::Version(_) => Command::Version(args),
        }
    }

    /// Runs the command as far as it goes without a passphrase.
    ///
    /// Only the removal of a whole profile changes the store here.
    pub fn run(&self, store: &mut Store) -> (step: Step)
        requires
            old(store).wf(),
        ensures
            final(store).wf(),
            step@ == first_step(self.kind_of(), self.arg_texts(), old(store)@, old(store).names()),
            step matches Step::Ask(_, pending) ==> pending.wf(),
            final(store)@.pending == old(store)@.pending,
            final(store)@.contents == stored_after_first(
                self.kind_of(),
                self.arg_texts(),
                old(store)@,
            ),
            final(store).names() == listed_after_first(
                self.kind_of(),
                self.arg_texts(),
                old(store).names(),
            ),
    {
        let kind = self.kind();
        let args = self.args();
        let ghost texts = self.arg_texts();
        assert(forall|i: int| 0 <= i < args@.len() ==> texts[i] == (#[trigger] args@[i])@);
        if args.len() == 0 {
            return match kind {
                CommandKind::Version => Step::Done(Outcome::Version { verbose: false }),
                _ => Step::Done(Outcome::Failed(Notice::InvalidArgumentCount)),
            };
        }
        assert(texts[0] == args@[0]@);
        match kind {
            CommandKind::Create => Step::Ask(Prompt::NewKey, Pending::Create { name: args[0].clone() }),
            CommandKind::Add | CommandKind::Update => {
                if args.len() <= 1 {
                    Step::Done(Outcome::Failed(Notice::InvalidArgumentCount))
                } else {
                    Step::Ask(Prompt::Key, Pending::Open { command: self.duplicate() })
                }
            },
            CommandKind::Load | CommandKind::Unload | CommandKind::Export => Step::Ask(
                Prompt::Key,
                Pending::Open { command: self.duplicate() },
            ),
            CommandKind::Remove => {
                if args.len() == 1 {
                    proof {
                        store.lemma_names();
                    }
                    match store.delete(args[0].as_str()) {
                        Ok(_) => Step::Done(Outcome::Deleted),
                        Err(e) => {
                            assert(store@.contents =~= old(store)@.contents.remove(texts[0]));
                            Step::Done(Outcome::DeleteFailed(e))
                        },
                    }
                } else {
                    Step::Ask(Prompt::Key, Pending::Open { command: self.duplicate() })
                }
            },
            CommandKind::List => {
                if same_text(args[0].as_str(), "profiles") {
                    let list = store.list();
                    assert(texts_of(list@) =~= store.names());
                    Step::Done(Outcome::Profiles(list))
                } else {
                    Step::Ask(Prompt::Key, Pending::Open { command: self.duplicate() })
                }
            },
            CommandKind::Import => {
                if args.len() < 2 {
                    Step::Done(Outcome::Failed(Notice::MissingProfileName))
                } else {
                    assert(texts[1] == args@[1]@);
                    if store.contains(args[1].as_str()) {
                        Step::Done(Outcome::Failed(Notice::ProfileExists))
                    } else {
                        let is_url = parses_as_url(args[0].as_str());
                        Step::Done(import_from(is_url, &args[0], &args[1]))
                    }
                }
            },
            CommandKind::Version => {
                if same_text(args[0].as_str(), "verbose") {
                    Step::Done(Outcome::Version { verbose: true })
                } else {
                    Step::Done(Outcome::Failed(Notice::InvalidArgument))
                }
            },
        }
    }
}

impl Pending {
    /// What is pending can be resumed: a profile to store is well-formed,
    /// and a command that opens a profile names one and is of a kind that
    /// opens.
    pub open spec fn wf(&self) -> bool {
        match *self {
            Pending::Create { name } => true,
            Pending::Open { command } => command.arg_list().len() >= 1 && opens(command.kind_of()),
            Pending::Save { profile } => profile.wf(),
        }
    }

    /// Goes on with what is pending, now that the passphrase `key` is there.
    ///
    /// Creating and storing draw fresh random bytes, so only what holds of
    /// every outcome is stated of them; opening is determined by what is
    /// stored.
    pub fn resume(self, key: &str, store: &mut Store, lifecycle: &mut Lifecycle) -> (step: Step)
        requires
            self.wf(),
            old(store).wf(),
            old(lifecycle).wf(),
        ensures
            final(store).wf(),
            final(lifecycle).wf(),
            step matches Step::Ask(_, pending) ==> pending.wf(),
            final(store).names() == match step@ {
                StepModel::Done(OutcomeModel::Created) => old(store).names().push(self@.name()),
                StepModel::Done(OutcomeModel::Saved) => listed_after_write(
                    old(store).names(),
                    self@.name(),
                ),
                _ => old(store).names(),
            },
            match self@ {
                PendingModel::Create { name } => {
                    &&& final(lifecycle)@ == old(lifecycle)@
                    &&& created_step(name, key@, old(store)@, final(store)@, step@)
                },
                PendingModel::Save { name, envs } => {
                    &&& final(lifecycle)@ == old(lifecycle)@
                    &&& saved_step(name, envs, key@, old(store)@, final(store)@, step@)
                },
                PendingModel::Open { kind, args } => {
                    &&& final(store)@ == old(store)@
                    &&& match readable(old(store)@, args[0], key@) {
                        None => step@ == StepModel::Done(OutcomeModel::Unavailable)
                            && final(lifecycle)@ == old(lifecycle)@,
                        Some(envs) => step@ == opened_step(kind, args, envs) && final(lifecycle)@
                            == lifecycle_after(kind, args[0], entries_map(envs), old(lifecycle)@),
                    }
                },
            },
    {
        match self {
            Pending::Create { name } => {
                let initial = EnvMap::new();
                match store.create(name, &initial, key) {
                    Ok(_) => Step::Done(Outcome::Created),
                    Err(e) => Step::Done(Outcome::CreateFailed(e)),
                }
            },
            Pending::Save { profile } => {
                match profile.push_changes(store, key) {
                    Ok(_) => Step::Done(Outcome::Saved),
                    Err(e) => Step::Done(Outcome::SaveFailed(e)),
                }
            },
            Pending::Open { command } => {
                let kind = command.kind();
                let args = command.args();
                let ghost texts = command.arg_texts();
                assert(forall|i: int| 0 <= i < args@.len() ==> texts[i] == (#[trigger] args@[i])@);
                assert(texts[0] == args@[0]@);
                let mut profile = match get_profile(store, args[0].as_str(), key) {
                    Some(p) => p,
                    None => {
                        return Step::Done(Outcome::Unavailable);
                    },
                };
                let ghost envs = profile.envs.entries();
                match kind {
                    CommandKind::Add => match apply_additions(&mut profile, args) {
                        Ok(_) => Step::Ask(Prompt::Key, Pending::Save { profile }),
                        Err(notice) => Step::Done(Outcome::Failed(notice)),
                    },
                    CommandKind::Update => match apply_updates(&mut profile, args) {
                        Ok(_) => Step::Ask(Prompt::Key, Pending::Save { profile }),
                        Err(notice) => Step::Done(Outcome::Failed(notice)),
                    },
                    CommandKind::Remove => {
                        apply_removals(&mut profile, args);
                        Step::Ask(Prompt::Key, Pending::Save { profile })
                    },
                    CommandKind::Load => {
                        lifecycle.load(&profile);
                        Step::Done(Outcome::Loaded)
                    },
                    CommandKind::Unload => {
                        lifecycle.unload(&profile);
                        Step::Done(Outcome::Unloaded)
                    },
                    CommandKind::List => {
                        let list = profile.list_envs();
                        assert(vars_of(list@) =~= envs);
                        Step::Done(Outcome::Variables(list))
                    },
                    CommandKind::Export => {
                        let path = if args.len() > 1 {
                            assert(texts[1] == args@[1]@);
                            args[1].clone()
                        } else {
                            ".env".to_owned()
                        };
                        Step::Done(Outcome::Export { path, text: profile.export_envs() })
                    },
                    _ => Step::Done(Outcome::Failed(Notice::InvalidArgument)),
                }
            },
        }
    }
}

/// Whether a command of this kind opens a profile.
pub open spec fn opens(kind: CommandKind) -> bool {
    kind == CommandKind::Add || kind == CommandKind::Update || kind == CommandKind::Remove || kind
        == CommandKind::Load || kind == CommandKind::Unload || kind == CommandKind::List || kind
        == CommandKind::Export
}

/// What holds after the attempt to create the profile `name` under `key`:
/// it is stored as an empty profile that `key` opens, or nothing changed;
/// and where the name was taken, nothing changed.
pub open spec fn created_step(
    name: Seq<char>,
    key: Seq<char>,
    before: StoreModel,
    after: StoreModel,
    step: StepModel,
) -> bool {
    match step {
        StepModel::Done(OutcomeModel::Created) => {
            &&& !before.contents.contains_key(name)
            &&& after.contents.contains_key(name)
            &&& after == before.written(name, after.contents[name])
            &&& readable(after, name, key) == Some(Seq::<Entry>::empty())
        },
        StepModel::Done(OutcomeModel::CreateFailed(e)) => {
            &&& after == before
            &&& if before.contents.contains_key(name) {
                e == StoreError::AlreadyExists
            } else {
                e == StoreError::Crypto(CryptoError::RandomSource)
            }
        },
        _ => false,
    }
}

/// What holds after the attempt to store the variables `envs` of the profile
/// `name` under `key`: they are stored and `key` opens them, or nothing
/// changed.
pub open spec fn saved_step(
    name: Seq<char>,
    envs: Env,
    key: Seq<char>,
    before: StoreModel,
    after: StoreModel,
    step: StepModel,
) -> bool {
    match step {
        StepModel::Done(OutcomeModel::Saved) => {
            &&& after.contents.contains_key(name)
            &&& after == before.written(name, after.contents[name])
            &&& readable(after, name, key) is Some
            &&& entries_map(readable(after, name, key)->0) == envs
        },
        StepModel::Done(OutcomeModel::SaveFailed(e)) => {
            &&& after == before
            &&& (e == StoreError::Crypto(CryptoError::RandomSource) || e == StoreError::Crypto(
                CryptoError::MessageTooLarge,
            ))
        },
        _ => false,
    }
}

} // verus!
