//! The dictionary manager's command line: what a list of arguments asks for,
//! decided before anything touches `knowledge.db`.
//!
//!     jp-dict sync                 import every new zip in the dictionaries dir
//!     jp-dict import <zip>...      import named zips
//!     jp-dict list                 what is cached, and what each is for
//!     jp-dict reimport <id>        re-parse a cached zip after a parser fix
//!     jp-dict remove <id>          forget a cached dictionary and its entries
//!     jp-dict priority <id> <n>    who answers first
//!     jp-dict set-role <id> <role> master | standard | name | frequency |
//!                                  pitch | reference
use vstd::prelude::*;
use crate::knowledge::dictionaries::{Dictionary, Role};
use crate::strings::{concat, decimal, parse_i64, same};

verus! {

pub const USAGE: &'static str = "\
jp-dict — manage the dictionaries in knowledge.db

usage:
  jp-dict sync                    import every zip in the dictionaries directory
  jp-dict import <zip>...         import the named zips
  jp-dict list                    list cached dictionaries and their roles
  jp-dict reimport <id>           re-parse a cached zip in place, keeping the
                                  id and the role (use after a parser fix)
  jp-dict remove <id>             forget a cached dictionary and its entries
                                  (the zip on disk is left alone)
  jp-dict import <zip>...         --role <role> overrides the guess
  jp-dict priority <id> <n>       who answers first: the popup's page order,
                                  and which frequency list is the reader's
  jp-dict set-role <id> <role>    role is master, standard, name, frequency,
                                  pitch or reference
                                  (standard: decides segmentation beside the
                                  master, never spelling or the word count)

options:
  --dir <path>   dictionaries directory (default: $KOTODEX_DICTIONARY_DIR,
                 else <repo>/dictionaries)
  --db <path>    knowledge.db (default: $KOTODEX_KNOWLEDGE_DB_PATH,
                 else ~/.local/share/kotodex/knowledge.db)

environment:
  KOTODEX_MASTER_DICTIONARY   title to promote to master when none is set yet,
                              matched as a substring. The master is the
                              vocabulary scale — which dictionary deserves to be
                              it is a judgement, so this only ever picks the
                              first one; `set-role` is how it is changed after.
";

/// The role a command-line word names, if it names one exactly.
pub open spec fn named_role(s: Seq<char>) -> Option<Role> {
    if s == "master"@ {
        Some(Role::Master)
    } else if s == "standard"@ {
        Some(Role::Standard)
    } else if s == "name"@ {
        Some(Role::Name)
    } else if s == "frequency"@ {
        Some(Role::Frequency)
    } else if s == "pitch"@ {
        Some(Role::Pitch)
    } else if s == "reference"@ {
        Some(Role::Reference)
    } else {
        None
    }
}

/// What an unknown role is answered with.
pub open spec fn role_error(s: Seq<char>) -> Seq<char> {
    "unknown role: "@ + s + " (master, standard, name, frequency, pitch, reference)"@
}

/// A role named on the command line. Unlike [`Role::parse`], which reads a
/// stored value and treats anything unknown as `reference`, a typo here is an
/// error: it would otherwise silently demote a dictionary.
pub fn parse_role(role: &str) -> (r: Result<Role, String>)
    ensures
        match r {
            Ok(x) => named_role(role@) == Some(x),
            Err(e) => named_role(role@) is None && e@ == role_error(role@),
        },
{
    if same(role, "master") {
        Ok(Role::Master)
    } else if same(role, "standard") {
        Ok(Role::Standard)
    } else if same(role, "name") {
        Ok(Role::Name)
    } else if same(role, "frequency") {
        Ok(Role::Frequency)
    } else if same(role, "pitch") {
        Ok(Role::Pitch)
    } else if same(role, "reference") {
        Ok(Role::Reference)
    } else {
        let head = concat("unknown role: ", role);
        Err(concat(head.as_str(), " (master, standard, name, frequency, pitch, reference)"))
    }
}

/// Where a word first occurs in a list of words.
pub open spec fn first_at(args: Seq<Seq<char>>, name: Seq<char>) -> Option<int>
    decreases args.len(),
{
    if args.len() == 0 {
        None
    } else if args[0] == name {
        Some(0)
    } else {
        match first_at(args.drop_first(), name) {
            Some(k) => Some(k + 1),
            None => None,
        }
    }
}

/// What taking option `name` leaves of the arguments, and its value: the
/// first `name` and the word after it come out; an option with no word after
/// it is left where it is, unanswered.
pub open spec fn taken(args: Seq<Seq<char>>, name: Seq<char>) -> (Seq<Seq<char>>, Option<Seq<char>>) {
    match first_at(args, name) {
        Some(at) => if at + 1 < args.len() {
            (args.remove(at + 1).remove(at), Some(args[at + 1]))
        } else {
            (args, None)
        },
        None => (args, None),
    }
}

pub open spec fn opt_view(o: Option<String>) -> Option<Seq<char>> {
    match o {
        Some(s) => Some(s@),
        None => None,
    }
}

proof fn lemma_first_at(args: Seq<Seq<char>>, name: Seq<char>, i: int)
    requires
        0 <= i <= args.len(),
        forall|j: int| 0 <= j < i ==> args[j] != name,
    ensures
        match first_at(args.skip(i), name) {
            Some(k) => first_at(args, name) == Some(k + i),
            None => first_at(args, name) is None,
        },
    decreases i,
{
    if i > 0 {
        assert(args.skip(1) =~= args.drop_first());
        lemma_first_at(args.drop_first(), name, i - 1);
        assert(args.drop_first().skip(i - 1) =~= args.skip(i));
    } else {
        assert(args.skip(0) =~= args);
        match first_at(args, name) {
            Some(k) => {},
            None => {},
        }
    }
}

/// Take `name <value>` out of the arguments.
pub fn take_option(args: &mut Vec<String>, name: &str) -> (r: Option<String>)
    ensures
        (final(args).deep_view(), opt_view(r)) == taken(old(args).deep_view(), name@),
{
    let ghost start = args.deep_view();
    let mut at: usize = 0;
    let mut found = false;
    while at < args.len() && !found
        invariant
            args.deep_view() == start,
            at <= args.len(),
            forall|j: int| 0 <= j < at ==> start[j] != name@,
            found ==> at < args.len() && start[at as int] == name@,
        decreases args.len() - at, if found { 0int } else { 1int },
    {
        if same(args[at].as_str(), name) {
            found = true;
        } else {
            at = at + 1;
        }
    }
    proof {
        lemma_first_at(start, name@, at as int);
        if found {
            assert(start.skip(at as int)[0] == name@);
        } else {
            assert(start.skip(at as int).len() == 0);
        }
    }
    if !found || at + 1 >= args.len() {
        return None;
    }
    let ghost before = args@;
    let value = args.remove(at + 1);
    let ghost middle = args@;
    args.remove(at);
    proof {
        assert(args.deep_view() =~= start.remove(at + 1).remove(at as int)) by {
            assert(middle =~= before.remove(at + 1));
            assert(args@ =~= middle.remove(at as int));
        }
    }
    Some(value)
}

} // verus!

verus! {

/// The options and the command of one invocation.
#[derive(Debug)]
pub struct Invocation {
    /// `--dir`: the dictionaries directory.
    pub dir: Option<String>,
    /// `--db`: the path of `knowledge.db`.
    pub db: Option<String>,
    /// `--role`: the role every imported zip gets, over the guess.
    pub role: Option<Role>,
    pub command: String,
    pub rest: Vec<String>,
}

/// What an invocation with no command is answered with.
pub open spec fn no_command_error() -> Seq<char> {
    "no command given\n\n"@ + USAGE@
}

/// Whether `r` is what the arguments ask for: `--dir`, `--db` and `--role`
/// taken out in that order, an unknown role refused, and the first word left
/// as the command.
pub open spec fn invoked(r: Result<Invocation, String>, args: Seq<Seq<char>>) -> bool {
    let (a1, dir) = taken(args, "--dir"@);
    let (a2, db) = taken(a1, "--db"@);
    let (a3, role) = taken(a2, "--role"@);
    match role {
        Some(rs) if named_role(rs) is None => r matches Err(e) && e@ == role_error(rs),
        _ => if a3.len() == 0 {
            r matches Err(e) && e@ == no_command_error()
        } else {
            &&& r matches Ok(inv)
            &&& opt_view(inv.dir) == dir
            &&& opt_view(inv.db) == db
            &&& inv.role == (match role { Some(rs) => named_role(rs), None => None::<Role> })
            &&& inv.command@ == a3[0]
            &&& inv.rest.deep_view() == a3.drop_first()
        },
    }
}

/// Read an invocation's options and command.
pub fn parse_invocation(args: Vec<String>) -> (r: Result<Invocation, String>)
    ensures
        invoked(r, args.deep_view()),
{
    let mut args = args;
    let dir = take_option(&mut args, "--dir");
    let db = take_option(&mut args, "--db");
    let role = match take_option(&mut args, "--role") {
        Some(rs) => match parse_role(rs.as_str()) {
            Ok(x) => Some(x),
            Err(e) => {
                return Err(e);
            },
        },
        None => None,
    };
    if args.len() == 0 {
        return Err(concat("no command given\n\n", USAGE));
    }
    let ghost before = args.deep_view();
    let command = args.remove(0);
    proof {
        assert(args.deep_view() =~= before.drop_first());
    }
    Ok(Invocation { dir, db, role, command, rest: args })
}

/// What a command asks for, once its arguments have been read.
#[derive(Debug)]
pub enum Command {
    Sync,
    Import(Vec<String>),
    List,
    Priority { id: i64, priority: i64 },
    Reimport(i64),
    Remove(i64),
    SetRole { id: i64, role: Role },
    Help,
}

impl Command {
    /// Whether running the command changes what the highlighter is built
    /// from, so that the derived cache is rewritten after it.
    pub open spec fn rebuilds(self) -> bool {
        !(self is List || self is Help)
    }

    pub fn rebuilds_derived(&self) -> (r: bool)
        ensures
            r == self.rebuilds(),
    {
        match self {
            Command::List | Command::Help => false,
            _ => true,
        }
    }
}

/// An `i64` read from a command-line word.
pub open spec fn number(s: Seq<char>) -> Option<i64> {
    match decimal(s) {
        Some(v) => if i64::MIN <= v && v <= i64::MAX { Some(v as i64) } else { None },
        None => None,
    }
}

/// What an argument that is not an id is answered with.
pub open spec fn id_error(s: Seq<char>) -> Seq<char> {
    "not an id: "@ + s
}

/// An id argument, or the error naming it.
pub open spec fn id_arg(s: Seq<char>) -> Result<i64, Seq<char>> {
    match number(s) {
        Some(n) => Ok(n),
        None => Err(id_error(s)),
    }
}

/// Whether `r` is the outcome of command `command` with arguments `rest`.
pub open spec fn commanded(r: Result<Command, String>, command: Seq<char>, rest: Seq<Seq<char>>) -> bool {
    if command == "sync"@ {
        r matches Ok(Command::Sync)
    } else if command == "import"@ {
        if rest.len() == 0 {
            r matches Err(e) && e@ == "import needs at least one zip\n\n"@ + USAGE@
        } else {
            r matches Ok(Command::Import(zips)) && zips.deep_view() == rest
        }
    } else if command == "list"@ {
        r matches Ok(Command::List)
    } else if command == "priority"@ {
        if rest.len() != 2 {
            r matches Err(e) && e@ == "priority needs an id and a number\n\n"@ + USAGE@
        } else {
            match (id_arg(rest[0]), number(rest[1])) {
                (Err(m), _) => r matches Err(e) && e@ == m,
                (Ok(_), None) => r matches Err(e) && e@ == "not a number: "@ + rest[1],
                (Ok(id), Some(p)) => r matches Ok(Command::Priority { id: i, priority: q }) && i == id && q == p,
            }
        }
    } else if command == "reimport"@ || command == "remove"@ {
        if rest.len() != 1 {
            r matches Err(e) && e@ == command + " needs an id\n\n"@ + USAGE@
        } else {
            match id_arg(rest[0]) {
                Err(m) => r matches Err(e) && e@ == m,
                Ok(id) => if command == "reimport"@ {
                    r matches Ok(Command::Reimport(i)) && i == id
                } else {
                    r matches Ok(Command::Remove(i)) && i == id
                },
            }
        }
    } else if command == "set-role"@ {
        if rest.len() != 2 {
            r matches Err(e) && e@ == "set-role needs an id and a role\n\n"@ + USAGE@
        } else {
            match (id_arg(rest[0]), named_role(rest[1])) {
                (Err(m), _) => r matches Err(e) && e@ == m,
                (Ok(_), None) => r matches Err(e) && e@ == role_error(rest[1]),
                (Ok(id), Some(role)) => r matches Ok(Command::SetRole { id: i, role: x }) && i == id && x == role,
            }
        }
    } else if command == "help"@ || command == "--help"@ || command == "-h"@ {
        r matches Ok(Command::Help)
    } else {
        r matches Err(e) && e@ == "unknown command: "@ + command + "\n\n"@ + USAGE@
    }
}

fn parse_id(s: &str) -> (r: Result<i64, String>)
    ensures
        match (r, id_arg(s@)) {
            (Ok(a), Ok(b)) => a == b,
            (Err(a), Err(b)) => a@ == b,
            _ => false,
        },
{
    match parse_i64(s) {
        Some(n) => Ok(n),
        None => Err(concat("not an id: ", s)),
    }
}

/// Read a command and its arguments.
pub fn parse_command(command: &str, rest: &Vec<String>) -> (r: Result<Command, String>)
    ensures
        commanded(r, command@, rest.deep_view()),
{
    if same(command, "sync") {
        Ok(Command::Sync)
    } else if same(command, "import") {
        if rest.len() == 0 {
            Err(concat("import needs at least one zip\n\n", USAGE))
        } else {
            Ok(Command::Import(crate::tables::copy_strings(rest)))
        }
    } else if same(command, "list") {
        Ok(Command::List)
    } else if same(command, "priority") {
        if rest.len() != 2 {
            return Err(concat("priority needs an id and a number\n\n", USAGE));
        }
        let id = match parse_id(rest[0].as_str()) {
            Ok(n) => n,
            Err(e) => {
                return Err(e);
            },
        };
        match parse_i64(rest[1].as_str()) {
            Some(p) => Ok(Command::Priority { id, priority: p }),
            None => Err(concat("not a number: ", rest[1].as_str())),
        }
    } else if same(command, "reimport") || same(command, "remove") {
        if rest.len() != 1 {
            let head = concat(command, " needs an id\n\n");
            return Err(concat(head.as_str(), USAGE));
        }
        let id = match parse_id(rest[0].as_str()) {
            Ok(n) => n,
            Err(e) => {
                return Err(e);
            },
        };
        if same(command, "reimport") {
            Ok(Command::Reimport(id))
        } else {
            Ok(Command::Remove(id))
        }
    } else if same(command, "set-role") {
        if rest.len() != 2 {
            return Err(concat("set-role needs an id and a role\n\n", USAGE));
        }
        let id = match parse_id(rest[0].as_str()) {
            Ok(n) => n,
            Err(e) => {
                return Err(e);
            },
        };
        match parse_role(rest[1].as_str()) {
            Ok(role) => Ok(Command::SetRole { id, role }),
            Err(e) => Err(e),
        }
    } else if same(command, "help") || same(command, "--help") || same(command, "-h") {
        Ok(Command::Help)
    } else {
        let head = concat("unknown command: ", command);
        let head = concat(head.as_str(), "\n\n");
        Err(concat(head.as_str(), USAGE))
    }
}

/// Why a dictionary may not be removed, if it may not: the master is the
/// vocabulary scale, and another must be made master first.
pub fn refuse_removal(target: &Dictionary) -> (r: Option<String>)
    ensures
        (r is Some) == (target.role == Role::Master),
        r matches Some(m) ==> m@ == target.title@ + " is the master dictionary — set another one master first"@,
{
    match target.role {
        Role::Master => Some(concat(target.title.as_str(), " is the master dictionary — set another one master first")),
        _ => None,
    }
}

} // verus!

verus! {

/// What to do with one zip being imported.
#[derive(Debug, Clone, Copy, PartialEq, Eq, Structural)]
pub enum ImportStep {
    /// The zip is cached under another path — the cached dictionary at this
    /// index has the same file name. Repoint it rather than re-import: same
    /// dictionary, and re-importing would leave a duplicate row.
    Repoint(usize),
    /// Load it, from the cache when its path is cached (`fresh` false), or by
    /// importing it.
    Load { fresh: bool },
}

/// Whether a dictionary is cached under this path.
pub open spec fn cached_at(cached: Seq<Dictionary>, path: Seq<char>) -> bool {
    exists|i: int| 0 <= i < cached.len() && (#[trigger] cached[i]).source_path@ == path
}

/// The first cached dictionary whose file has this name.
pub open spec fn first_named(names: Seq<Option<String>>, name: Seq<char>) -> Option<int>
    decreases names.len(),
{
    if names.len() == 0 {
        None
    } else if opt_view(names[0]) == Some(name) {
        Some(0)
    } else {
        match first_named(names.drop_first(), name) {
            Some(k) => Some(k + 1),
            None => None,
        }
    }
}

/// What to do with the zip at `path`, whose file name is `name`, given the
/// cached dictionaries and the file name of each one's source path.
pub open spec fn import_step_for(cached: Seq<Dictionary>, names: Seq<Option<String>>, path: Seq<char>, name: Option<Seq<char>>) -> ImportStep {
    if cached_at(cached, path) {
        ImportStep::Load { fresh: false }
    } else {
        match name {
            Some(n) => match first_named(names, n) {
                Some(k) => ImportStep::Repoint(k as usize),
                None => ImportStep::Load { fresh: true },
            },
            None => ImportStep::Load { fresh: true },
        }
    }
}

proof fn lemma_first_named(names: Seq<Option<String>>, name: Seq<char>, i: int)
    requires
        0 <= i <= names.len(),
        forall|j: int| 0 <= j < i ==> opt_view(#[trigger] names[j]) != Some(name),
    ensures
        match first_named(names.skip(i), name) {
            Some(k) => first_named(names, name) == Some(k + i),
            None => first_named(names, name) is None,
        },
    decreases i,
{
    if i > 0 {
        assert(names.skip(1) =~= names.drop_first());
        lemma_first_named(names.drop_first(), name, i - 1);
        assert(names.drop_first().skip(i - 1) =~= names.skip(i));
    } else {
        assert(names.skip(0) =~= names);
    }
}

/// Decide what importing one zip means. `names` holds the file name of each
/// cached dictionary's source path, in the same order.
pub fn import_step(cached: &Vec<Dictionary>, names: &Vec<Option<String>>, path: &str, name: Option<&str>) -> (r: ImportStep)
    requires
        names.len() == cached.len(),
    ensures
        r == import_step_for(cached@, names@, path@, match name { Some(n) => Some(n@), None => None }),
        r matches ImportStep::Repoint(k) ==> k < cached.len(),
{
    let mut i: usize = 0;
    while i < cached.len()
        invariant
            i <= cached.len(),
            forall|j: int| 0 <= j < i ==> cached@[j].source_path@ != path@,
        decreases cached.len() - i,
    {
        if same(cached[i].source_path.as_str(), path) {
            proof { assert(cached@[i as int].source_path@ == path@); }
            return ImportStep::Load { fresh: false };
        }
        i = i + 1;
    }
    let n = match name {
        Some(n) => n,
        None => {
            return ImportStep::Load { fresh: true };
        },
    };
    let mut k: usize = 0;
    while k < names.len()
        invariant
            k <= names.len(),
            names.len() == cached.len(),
            !cached_at(cached@, path@),
            name == Some(n),
            forall|j: int| 0 <= j < k ==> opt_view(#[trigger] names@[j]) != Some(n@),
        decreases names.len() - k,
    {
        let hit = match &names[k] {
            Some(f) => same(f.as_str(), n),
            None => false,
        };
        if hit {
            proof {
                assert(opt_view(names@[k as int]) == Some(n@));
                lemma_first_named(names@, n@, k as int);
                assert(names@.skip(k as int)[0] == names@[k as int]);
                assert(first_named(names@.skip(k as int), n@) == Some(0int));
            }
            return ImportStep::Repoint(k);
        }
        k = k + 1;
    }
    proof {
        lemma_first_named(names@, n@, k as int);
        assert(names@.skip(k as int).len() == 0);
    }
    ImportStep::Load { fresh: true }
}

/// What role a dictionary gets once it is loaded.
#[derive(Debug, Clone, Copy, PartialEq, Eq, Structural)]
pub enum RoleStep {
    /// Set this role.
    Assign(Role),
    /// Guess the role of the dictionary with this id from what it contains.
    Guess(i64),
    /// Leave the role as it is.
    Keep,
}

/// The role decision after a load: `--role` is a decision and always applies;
/// a guess is made only on a new row, since re-asserting one on every sync
/// would silently undo `set-role`.
pub open spec fn role_step_for(forced: Option<Role>, fresh: bool, id: Option<i64>) -> RoleStep {
    match (forced, id) {
        (Some(r), Some(_)) => RoleStep::Assign(r),
        (None, Some(i)) => if fresh { RoleStep::Guess(i) } else { RoleStep::Keep },
        _ => RoleStep::Keep,
    }
}

pub fn role_step(forced: Option<Role>, fresh: bool, id: Option<i64>) -> (r: RoleStep)
    ensures
        r == role_step_for(forced, fresh, id),
{
    match (forced, id) {
        (Some(r), Some(_)) => RoleStep::Assign(r),
        (None, Some(i)) => if fresh { RoleStep::Guess(i) } else { RoleStep::Keep },
        _ => RoleStep::Keep,
    }
}

} // verus!
