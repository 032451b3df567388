//! Discovery of instruction files. It does not depend on the selected configuration.

use vstd::prelude::*;
use vstd::string::*;
use crate::model;
use crate::text;

verus! {

/// How many spellings of an instruction file's name there are.
pub const CANDIDATES: usize = 4;

/// The spellings of an instruction file's name, the preferred one first.
pub open spec fn candidate_text(index: int) -> Seq<char> {
    if index == 0 {
        "AGENTS.md"@
    } else if index == 1 {
        "agents.md"@
    } else if index == 2 {
        "Agents.md"@
    } else {
        "AGENTS.MD"@
    }
}

/// A spelling of an instruction file's name.
pub fn candidate_name(index: usize) -> (name: &'static str)
    requires
        index < CANDIDATES,
    ensures
        name@ == candidate_text(index as int),
{
    if index == 0 {
        "AGENTS.md"
    } else if index == 1 {
        "agents.md"
    } else if index == 2 {
        "Agents.md"
    } else {
        "AGENTS.MD"
    }
}

/// What looking for a spelling has found.
#[derive(Clone, Copy, Debug, PartialEq, Eq, Structural)]
pub enum Probe {
    /// Something has the name, even if it is a link to nothing.
    Exists,
    Missing,
    /// The location cannot be searched.
    Failed,
}

/// How the search in a location goes on.
#[derive(Clone, Copy, Debug, PartialEq, Eq, Structural)]
pub enum CandidateStep {
    /// The file with this spelling is read, whatever comes of it.
    Read(usize),
    /// The next spelling is looked for.
    Next(usize),
    /// The location has no instruction file.
    Absent,
    /// The location fails: no other spelling is tried.
    Fail,
}

/// Decides how the search in a location goes on.
pub fn after_probe(index: usize, probe: Probe) -> (step: CandidateStep)
    requires
        index < CANDIDATES,
    ensures
        step == match probe {
            Probe::Exists => CandidateStep::Read(index),
            Probe::Failed => CandidateStep::Fail,
            Probe::Missing => if index + 1 < CANDIDATES {
                CandidateStep::Next((index + 1) as usize)
            } else {
                CandidateStep::Absent
            },
        },
{
    match probe {
        Probe::Exists => CandidateStep::Read(index),
        Probe::Failed => CandidateStep::Fail,
        Probe::Missing => if index + 1 < CANDIDATES {
            CandidateStep::Next(index + 1)
        } else {
            CandidateStep::Absent
        },
    }
}

/// A path with a relative one behind it.
pub open spec fn path_below(base: Seq<char>, part: Seq<char>) -> Seq<char> {
    if base.len() == 0 {
        part
    } else if base.last() == '/' {
        base + part
    } else {
        base + "/"@ + part
    }
}

/// Puts a relative path behind another path.
pub fn join_path(base: &str, part: &str) -> (path: String)
    ensures
        path@ == path_below(base@, part@),
{
    let length: usize = base.unicode_len();
    let mut path = base.to_owned();
    if length > 0 && base.get_char(length - 1) != '/' {
        path.append("/");
    }
    path.append(part);
    assert(path@ =~= path_below(base@, part@));
    path
}

/// A component is done with: it counts unless it is empty, or names the directory that
/// it stands in behind others.
pub open spec fn with_component(parts: Seq<Seq<char>>, current: Seq<char>) -> Seq<Seq<char>> {
    if current.len() == 0 || (current == "."@ && parts.len() > 0) {
        parts
    } else {
        parts.push(current)
    }
}

/// The components of a path that are complete after some characters, and the one that
/// is not.
pub open spec fn path_scan(path: Seq<char>) -> (Seq<Seq<char>>, Seq<char>)
    decreases path.len(),
{
    if path.len() == 0 {
        (seq![], seq![])
    } else {
        let (parts, current) = path_scan(path.drop_last());
        if path.last() != '/' {
            (parts, current.push(path.last()))
        } else if path.len() == 1 {
            (seq!["/"@], seq![])
        } else {
            (with_component(parts, current), seq![])
        }
    }
}

/// The components of a path: what stands between separators. A leading separator is a
/// component of its own.
pub open spec fn components(path: Seq<char>) -> Seq<Seq<char>> {
    let (parts, current) = path_scan(path);
    with_component(parts, current)
}

/// Ends a component.
fn finish_component(parts: &mut Vec<String>, current: String)
    ensures
        model::views(final(parts)@) == with_component(model::views(old(parts)@), current@),
{
    let ghost before = parts@;
    let ghost added = current@;
    let here = current == ".".to_owned();
    if current.as_str().unicode_len() == 0 || (here && parts.len() > 0) {
    } else {
        parts.push(current);
        assert(model::views(parts@) =~= model::views(before).push(added));
    }
}

/// Splits a path into its components.
fn split_path(path: &str) -> (parts: Vec<String>)
    ensures
        model::views(parts@) == components(path@),
{
    let mut parts: Vec<String> = Vec::new();
    let length: usize = path.unicode_len();
    let mut start: usize = 0;
    let mut i: usize = 0;
    assert(model::views(parts@) =~= seq![]);
    assert(path@.subrange(0, 0) =~= seq![]);
    while i < length
        invariant
            start <= i <= length,
            length == path@.len(),
            (model::views(parts@), path@.subrange(start as int, i as int)) == path_scan(path@.take(i as int)),
        decreases length - i,
    {
        let c = path.get_char(i);
        proof {
            assert(path@.take(i + 1).drop_last() =~= path@.take(i as int));
            assert(path@.take(i + 1).last() == c);
            assert(path@.subrange(start as int, i + 1) =~= path@.subrange(start as int, i as int).push(c));
            assert(path@.subrange(i + 1, i + 1) =~= seq![]);
        }
        if c == '/' {
            if i == 0 {
                parts = Vec::new();
                parts.push("/".to_owned());
                assert(model::views(parts@) =~= seq!["/"@]);
            } else {
                let current = path.substring_char(start, i);
                finish_component(&mut parts, current.to_owned());
            }
            start = i + 1;
        }
        i += 1;
    }
    assert(path@.take(i as int) =~= path@);
    let current = path.substring_char(start, length);
    finish_component(&mut parts, current.to_owned());
    parts
}

/// Whether two paths have the same components.
pub open spec fn same_path(left: Seq<char>, right: Seq<char>) -> bool {
    components(left) == components(right)
}

/// Tests whether two paths have the same components.
pub fn is_same_path(left: &str, right: &str) -> (answer: bool)
    ensures
        answer == same_path(left@, right@),
{
    let a = split_path(left);
    let b = split_path(right);
    let answer = model::same_all(&a, &b);
    proof {
        if answer {
            assert(model::views(a@) =~= model::views(b@));
        } else if model::views(a@) == model::views(b@) {
            assert(model::all_alike::<String>(model::views(a@), model::views(b@)));
        }
    }
    answer
}

/// A text that is there and not empty.
pub open spec fn present(value: Option<Seq<char>>) -> Option<Seq<char>> {
    match value {
        Some(text) => if text.len() > 0 {
            Some(text)
        } else {
            None
        },
        None => None,
    }
}

/// The directories with a user's instructions, the preferred one first.
pub open spec fn user_directories(xdg_config_home: Option<Seq<char>>, home: Option<Seq<char>>) -> Seq<Seq<char>> {
    let first = match present(xdg_config_home) {
        Some(root) => seq![path_below(root, "skyhook"@)],
        None => seq![],
    };
    match present(home) {
        Some(root) => {
            let fallback = path_below(root, ".config/skyhook"@);
            if first.len() > 0 && same_path(first[0], fallback) {
                first
            } else {
                first.push(fallback)
            }
        },
        None => first,
    }
}

/// Lists the directories with a user's instructions.
pub fn user_instruction_directories(xdg_config_home: Option<String>, home: Option<String>) -> (directories: Vec<
    String,
>)
    ensures
        model::views(directories@) == user_directories(
            model::text_view(xdg_config_home),
            model::text_view(home),
        ),
{
    let mut directories: Vec<String> = Vec::new();
    assert(model::views(directories@) =~= seq![]);
    if let Some(root) = xdg_config_home {
        if root.as_str().unicode_len() > 0 {
            let path = join_path(root.as_str(), "skyhook");
            let ghost added = path@;
            directories.push(path);
            assert(model::views(directories@) =~= seq![added]);
        }
    }
    if let Some(root) = home {
        if root.as_str().unicode_len() > 0 {
            let fallback = join_path(root.as_str(), ".config/skyhook");
            let known = directories.len() > 0 && is_same_path(directories[0].as_str(), fallback.as_str());
            assert(directories.len() > 0 ==> model::views(directories@)[0] == directories@[0]@);
            if !known {
                let ghost earlier = directories@;
                let ghost added = fallback@;
                directories.push(fallback);
                assert(model::views(directories@) =~= model::views(earlier).push(added));
            }
        }
    }
    directories
}

/// An instruction file that was read.
#[derive(Clone, Debug, PartialEq, Eq)]
pub struct AgentInstructionFile {
    pub canonical_path: String,
    /// Device and inode, where the system has them.
    pub identity: Option<(u64, u64)>,
    pub text: String,
}

/// Whether two files are the same, under whatever names.
pub open spec fn is_same_file(left: AgentInstructionFile, right: AgentInstructionFile) -> bool {
    ||| left.identity is Some && left.identity == right.identity
    ||| same_path(left.canonical_path@, right.canonical_path@)
}

impl AgentInstructionFile {
    /// Whether two files are the same.
    pub fn same_file(&self, other: &AgentInstructionFile) -> (answer: bool)
        ensures
            answer == is_same_file(*self, *other),
    {
        if let (Some(own), Some(theirs)) = (self.identity, other.identity) {
            if own.0 == theirs.0 && own.1 == theirs.1 {
                return true;
            }
        }
        is_same_path(self.canonical_path.as_str(), other.canonical_path.as_str())
    }
}

/// What is shown of a failure at an instruction file.
pub fn instruction_error(path: &str, error: &str) -> (message: String)
    ensures
        message@ == "AGENTS.md instruction file "@ + path@ + ": "@ + error@,
{
    let mut message = "AGENTS.md instruction file ".to_owned();
    message.append(path);
    message.append(": ");
    message.append(error);
    message
}

/// What reading a user's directories comes to. A location without a file is harmless,
/// but does not hide a failure at another one.
#[derive(Debug)]
pub enum UserInstructions {
    /// The first file that could be read, by the position of its directory.
    Found(usize),
    /// There is no file.
    Absent,
    /// Every location without a file aside, all fail: the position of the last one that
    /// does, and what is shown of all of them.
    Failed { last: usize, message: String },
}

/// What was found at a location.
#[derive(Clone, Debug, PartialEq, Eq)]
pub enum Location {
    File,
    Absent,
    Failed(String),
}

/// What is shown of the locations that fail.
pub open spec fn failures(locations: Seq<Location>) -> Seq<Seq<char>>
    decreases locations.len(),
{
    if locations.len() == 0 {
        seq![]
    } else {
        match locations.last() {
            Location::Failed(message) => failures(locations.drop_last()).push(message@),
            _ => failures(locations.drop_last()),
        }
    }
}

/// The last location that fails.
pub open spec fn last_failure(locations: Seq<Location>) -> Option<int>
    decreases locations.len(),
{
    if locations.len() == 0 {
        None
    } else if locations.last() is Failed {
        Some(locations.len() - 1)
    } else {
        last_failure(locations.drop_last())
    }
}

/// The first location with a file.
pub open spec fn first_file(locations: Seq<Location>) -> Option<int> {
    model::first(locations, |location: Location| location is File)
}

/// Decides which location's instructions count.
pub fn load_user_instructions(locations: &Vec<Location>) -> (outcome: UserInstructions)
    ensures
        match outcome {
            UserInstructions::Found(index) => first_file(locations@) == Some(index as int),
            UserInstructions::Absent => first_file(locations@) is None && last_failure(locations@) is None,
            UserInstructions::Failed { last, message } => {
                &&& first_file(locations@) is None
                &&& last_failure(locations@) == Some(last as int)
                &&& message@ == text::joined(failures(locations@), "; "@)
            },
        },
{
    let ghost test = |location: Location| location is File;
    let mut messages: Vec<String> = Vec::new();
    let mut last: Option<usize> = None;
    let mut i: usize = 0;
    assert(model::views(messages@) =~= seq![]);
    while i < locations.len()
        invariant
            i <= locations.len(),
            test == (|location: Location| location is File),
            forall|k: int| 0 <= k < i ==> !test(#[trigger] locations@[k]),
            model::views(messages@) == failures(locations@.take(i as int)),
            match last {
                Some(position) => last_failure(locations@.take(i as int)) == Some(position as int),
                None => last_failure(locations@.take(i as int)) is None,
            },
        decreases locations.len() - i,
    {
        proof {
            assert(locations@.take(i + 1).drop_last() =~= locations@.take(i as int));
            assert(locations@.take(i + 1).last() == locations@[i as int]);
        }
        match &locations[i] {
            Location::File => {
                proof {
                    assert(test(locations@[i as int]));
                    model::lemma_first(locations@, test, i as int);
                }
                return UserInstructions::Found(i);
            },
            Location::Absent => {},
            Location::Failed(message) => {
                let ghost earlier = messages@;
                messages.push(message.clone());
                assert(model::views(messages@) =~= model::views(earlier).push(message@));
                last = Some(i);
            },
        }
        i += 1;
    }
    proof {
        model::lemma_first(locations@, test, i as int);
        assert(locations@.take(i as int) =~= locations@);
    }
    match last {
        Some(position) => UserInstructions::Failed { last: position, message: text::join(&messages, "; ") },
        None => UserInstructions::Absent,
    }
}

/// The instructions that files give: the user's, then those of the workspace, which are
/// the more local ones. A file that is both counts once, as the user's.
pub open spec fn labeled(user: Option<AgentInstructionFile>, workspace: Option<AgentInstructionFile>) -> Seq<
    Seq<char>,
> {
    let first = match user {
        Some(file) => seq!["user AGENTS.md:\n"@ + file.text@],
        None => seq![],
    };
    match workspace {
        Some(file) => if user is Some && is_same_file(user->0, file) {
            first
        } else {
            first.push("workspace AGENTS.md:\n"@ + file.text@)
        },
        None => first,
    }
}

/// Labels the instructions that files give.
pub fn label_instructions(user: &Option<AgentInstructionFile>, workspace: &Option<AgentInstructionFile>) -> (labels:
    Vec<String>)
    ensures
        model::views(labels@) == labeled(*user, *workspace),
{
    let mut labels: Vec<String> = Vec::new();
    assert(model::views(labels@) =~= seq![]);
    if let Some(file) = user {
        let mut label = "user AGENTS.md:\n".to_owned();
        label.append(file.text.as_str());
        let ghost added = label@;
        labels.push(label);
        assert(model::views(labels@) =~= seq![added]);
    }
    if let Some(file) = workspace {
        let known = match user {
            Some(own) => own.same_file(file),
            None => false,
        };
        if !known {
            let mut label = "workspace AGENTS.md:\n".to_owned();
            label.append(file.text.as_str());
            let ghost earlier = labels@;
            let ghost added = label@;
            labels.push(label);
            assert(model::views(labels@) =~= model::views(earlier).push(added));
        }
    }
    labels
}

/// Instructions are never repeated: of a file that both locations name there is one label.
pub proof fn shared_files_count_once(user: AgentInstructionFile, workspace: AgentInstructionFile)
    requires
        is_same_file(user, workspace),
    ensures
        labeled(Some(user), Some(workspace)) == seq!["user AGENTS.md:\n"@ + user.text@],
{
}

/// The spellings that are looked for, in their order.
pub proof fn spellings_are_fixed()
    ensures
        candidate_text(0) == "AGENTS.md"@,
        candidate_text(1) == "agents.md"@,
        candidate_text(2) == "Agents.md"@,
        candidate_text(3) == "AGENTS.MD"@,
        CANDIDATES == 4,
{
}

/// A path behind another one is separated from it, once.
pub proof fn paths_are_joined_by_one_separator(base: Seq<char>, part: Seq<char>)
    ensures
        base.len() == 0 ==> path_below(base, part) == part,
        base.len() > 0 ==> base.is_prefix_of(path_below(base, part)),
        base.len() > 0 && base.last() != '/' ==> path_below(base, part) == base.push('/') + part,
        path_below(base.push('/'), part) == base.push('/') + part,
{
    reveal_strlit("/");
    assert(base + "/"@ =~= base.push('/'));
    assert(base.is_prefix_of(base + part));
    assert(base.is_prefix_of(base.push('/') + part));
}

/// A separator at the end of a path does not count, nor does one behind another.
pub proof fn separators_at_the_end_do_not_count(path: Seq<char>)
    requires
        path.len() > 0,
    ensures
        same_path(path.push('/'), path),
        same_path(path.push('/').push('/'), path),
{
    let one = path.push('/');
    let two = one.push('/');
    assert(one.drop_last() =~= path);
    assert(two.drop_last() =~= one);
    let (parts, current) = path_scan(path);
    let done = with_component(parts, current);
    assert(path_scan(one) == (done, Seq::<char>::empty()));
    assert(with_component(done, Seq::<char>::empty()) == done);
    assert(path_scan(two) == (done, Seq::<char>::empty()));
}

/// A component of a path counts, unless it is empty or stands for the directory that it
/// stands in: what is added to a path behind a separator is one component more.
pub proof fn components_are_what_stands_between(path: Seq<char>, name: Seq<char>)
    requires
        path.len() > 0,
        name.len() > 0,
        forall|i: int| 0 <= i < name.len() ==> #[trigger] name[i] != '/',
    ensures
        components(path.push('/') + name) == if name == "."@ && components(path).len() > 0 {
            components(path)
        } else {
            components(path).push(name)
        },
        components(name) == seq![name],
{
    lemma_scan_name(path.push('/'), name);
    lemma_scan_name(seq![], name);
    assert(path.push('/').drop_last() =~= path);
    assert(Seq::<char>::empty() + name =~= name);
    let (parts, current) = path_scan(path);
    assert(path_scan(path.push('/')) == (with_component(parts, current), Seq::<char>::empty()));
    assert(components(name) =~= seq![name]);
}

proof fn lemma_scan_name(path: Seq<char>, name: Seq<char>)
    requires
        forall|i: int| 0 <= i < name.len() ==> #[trigger] name[i] != '/',
        path_scan(path).1.len() == 0,
    ensures
        path_scan(path + name) == (path_scan(path).0, name),
    decreases name.len(),
{
    if name.len() == 0 {
        assert(path + name =~= path);
        assert(path_scan(path).1 =~= name);
    } else {
        let rest = name.drop_last();
        assert forall|i: int| 0 <= i < rest.len() implies #[trigger] rest[i] != '/' by {
            assert(rest[i] == name[i]);
        }
        lemma_scan_name(path, rest);
        assert((path + name).drop_last() =~= path + rest);
        assert((path + name).last() == name[name.len() - 1]);
        assert(rest.push(name.last()) =~= name);
    }
}

/// A user's instructions are looked for in the configured directory first, then below the
/// home, each where there is one that is not empty, and in no directory twice.
pub proof fn user_directories_are_looked_at_in_order(xdg_config_home: Option<Seq<char>>, home: Option<Seq<char>>)
    ensures
        ({
            let directories = user_directories(xdg_config_home, home);
            let configured = xdg_config_home is Some && xdg_config_home->0.len() > 0;
            let housed = home is Some && home->0.len() > 0;
            let first = path_below(xdg_config_home->0, "skyhook"@);
            let second = path_below(home->0, ".config/skyhook"@);
            &&& !configured && !housed ==> directories.len() == 0
            &&& configured && !housed ==> directories == seq![first]
            &&& !configured && housed ==> directories == seq![second]
            &&& configured && housed && same_path(first, second) ==> directories == seq![first]
            &&& configured && housed && !same_path(first, second) ==> directories == seq![first, second]
        }),
{
}

/// Two files are the same where they are one to the system, or have the same path. Without
/// anything from the system only the paths count.
pub proof fn files_are_the_same_by_identity_or_path(left: AgentInstructionFile, right: AgentInstructionFile)
    ensures
        is_same_file(left, left),
        is_same_file(left, right) == is_same_file(right, left),
        left.identity is None ==> (is_same_file(left, right) <==> same_path(
            left.canonical_path@,
            right.canonical_path@,
        )),
        left.identity is Some && left.identity == right.identity ==> is_same_file(left, right),
        left.identity != right.identity ==> (is_same_file(left, right) <==> same_path(
            left.canonical_path@,
            right.canonical_path@,
        )),
{
}

/// All failures are shown, in the order of their locations; the last of them is known, and
/// the first file counts whatever else there is.
pub proof fn locations_are_judged_in_order(locations: Seq<Location>, location: Location)
    ensures
        failures(seq![]).len() == 0,
        failures(locations.push(location)) == match location {
            Location::Failed(message) => failures(locations).push(message@),
            _ => failures(locations),
        },
        last_failure(locations.push(location)) == if location is Failed {
            Some(locations.len() as int)
        } else {
            last_failure(locations)
        },
        last_failure(seq![]) is None,
        match first_file(locations) {
            Some(index) => {
                &&& 0 <= index < locations.len()
                &&& locations[index] is File
                &&& forall|k: int| 0 <= k < index ==> !((#[trigger] locations[k]) is File)
            },
            None => forall|k: int| 0 <= k < locations.len() ==> !((#[trigger] locations[k]) is File),
        },
{
    assert(locations.push(location).drop_last() =~= locations);
    model::lemma_first_found(locations, |location: Location| location is File);
}

/// The user's instructions come before those of the workspace, each under its label and
/// with the whole text of its file.
pub proof fn instructions_are_labeled(user: AgentInstructionFile, workspace: AgentInstructionFile)
    ensures
        labeled(None, None).len() == 0,
        labeled(Some(user), None) == seq!["user AGENTS.md:\n"@ + user.text@],
        labeled(None, Some(workspace)) == seq!["workspace AGENTS.md:\n"@ + workspace.text@],
        !is_same_file(user, workspace) ==> labeled(Some(user), Some(workspace)) == seq![
            "user AGENTS.md:\n"@ + user.text@,
            "workspace AGENTS.md:\n"@ + workspace.text@,
        ],
{
}

} // verus!
