//! Command-line arguments and what they ask for.

use crate::diff::{is_no_change, Diff};
use crate::elf_model::text_of;
use crate::text::{chars_of, has_prefix, owned, same_text, starts_with, texts};
use vstd::prelude::*;

verus! {

/// The help text.
pub const USAGE: &'static str = "\
elfcaps: which privacy-sensitive X11, input and screen APIs Linux binaries can reach

USAGE:
    elfcaps scan <dir-or-binary> [--json] [--root <dir>] [--db <file>]
    elfcaps diff <old> <new> [--json] [--db <file>]
    elfcaps caps [--db <file>]

scan   Report every capability import in a binary or an application directory,
       the bundled object that imports it, and the DT_NEEDED chain that loads it.
       --root sets the directory dependencies are resolved in (default: the
       scanned directory, or the binary's own directory).
diff   Scan two versions of an application and report capabilities that were
       added, removed, or whose evidence changed. Exits 1 when there are changes.
caps   Print the capability database with the rationale for each entry.

Exit status: 0 success, 1 diff found changes, 2 usage or scan error.
";

/// The arguments behind the command.
#[derive(Debug)]
pub struct Options {
    pub positional: Vec<String>,
    pub json: bool,
    pub root: Option<String>,
    pub db: Option<String>,
}

/// The arguments behind the command as text.
pub struct OptionsModel {
    pub positional: Seq<Seq<char>>,
    pub json: bool,
    pub root: Option<Seq<char>>,
    pub db: Option<Seq<char>>,
}

impl View for Options {
    type V = OptionsModel;

    open spec fn view(&self) -> OptionsModel {
        OptionsModel {
            positional: texts(self.positional@),
            json: self.json,
            root: text_of(self.root),
            db: text_of(self.db),
        }
    }
}

pub open spec fn no_options() -> OptionsModel {
    OptionsModel { positional: Seq::empty(), json: false, root: None, db: None }
}

/// Reads the arguments from the `i`th on. The last of several values of an option
/// counts.
pub open spec fn options_from(args: Seq<Seq<char>>, i: int, found: OptionsModel) -> Result<
    OptionsModel,
    Seq<char>,
>
    decreases args.len() - i,
{
    if i >= args.len() {
        Ok(found)
    } else if args[i] == "--json"@ {
        options_from(args, i + 1, OptionsModel { json: true, ..found })
    } else if args[i] == "--root"@ {
        if i + 1 < args.len() {
            options_from(args, i + 2, OptionsModel { root: Some(args[i + 1]), ..found })
        } else {
            Err("--root needs a directory"@)
        }
    } else if args[i] == "--db"@ {
        if i + 1 < args.len() {
            options_from(args, i + 2, OptionsModel { db: Some(args[i + 1]), ..found })
        } else {
            Err("--db needs a file"@)
        }
    } else if has_prefix(args[i], "--"@) {
        Err("unknown option "@ + args[i])
    } else {
        options_from(
            args,
            i + 1,
            OptionsModel { positional: found.positional.push(args[i]), ..found },
        )
    }
}

pub fn parse_options(args: &[String]) -> (r: Result<Options, String>)
    ensures
        match r {
            Ok(o) => options_from(texts(args@), 0, no_options()) == Ok::<_, Seq<char>>(o@),
            Err(m) => options_from(texts(args@), 0, no_options()) == Err::<OptionsModel, _>(m@),
        },
{
    let ghost all = texts(args@);
    let mut found = Options { positional: Vec::new(), json: false, root: None, db: None };
    let mut i: usize = 0;
    assert(found@.positional =~= Seq::<Seq<char>>::empty());
    while i < args.len()
        invariant
            i <= args@.len(),
            all == texts(args@),
            options_from(all, 0, no_options()) == options_from(all, i as int, found@),
        decreases args@.len() - i,
    {
        let arg = args[i].as_str();
        assert(all[i as int] == arg@);
        if same_text(arg, "--json") {
            found.json = true;
            i = i + 1;
        } else if same_text(arg, "--root") {
            if args.len() - i < 2 {
                return Err(owned("--root needs a directory"));
            }
            assert(all[i + 1] == args@[i + 1]@);
            found.root = Some(args[i + 1].clone());
            i = i + 2;
        } else if same_text(arg, "--db") {
            if args.len() - i < 2 {
                return Err(owned("--db needs a file"));
            }
            assert(all[i + 1] == args@[i + 1]@);
            found.db = Some(args[i + 1].clone());
            i = i + 2;
        } else {
            let chars = chars_of(arg);
            if starts_with(&chars, "--") {
                let mut message = owned("unknown option ");
                message.append(arg);
                return Err(message);
            }
            let ghost before = found@.positional;
            found.positional.push(args[i].clone());
            assert(found@.positional =~= before.push(arg@));
            i = i + 1;
        }
    }
    Ok(found)
}

/// A command with its arguments.
#[derive(Debug)]
pub struct Invocation {
    pub command: String,
    pub options: Options,
}

/// Reads a command line.
pub fn parse_command(args: &[String]) -> (r: Result<Invocation, String>)
    ensures
        match r {
            Ok(v) => args@.len() > 0 && v.command@ == args@[0]@ && options_from(
                texts(args@).skip(1),
                0,
                no_options(),
            ) == Ok::<_, Seq<char>>(v.options@),
            Err(m) => if args@.len() == 0 {
                m@ == "missing command"@
            } else {
                options_from(texts(args@).skip(1), 0, no_options()) == Err::<OptionsModel, _>(m@)
            },
        },
{
    if args.len() == 0 {
        return Err(owned("missing command"));
    }
    let rest = vstd::slice::slice_subrange(args, 1, args.len());
    assert(texts(rest@) =~= texts(args@).skip(1));
    let options = parse_options(rest)?;
    Ok(Invocation { command: args[0].clone(), options })
}

/// What a command line asks for.
#[derive(Debug)]
pub enum Action {
    Scan { target: String, root: Option<String>, json: bool },
    Diff { first: String, second: String, json: bool },
    Caps,
}

/// What a command line asks for, as text.
pub enum ActionModel {
    Scan { target: Seq<char>, root: Option<Seq<char>>, json: bool },
    Diff { first: Seq<char>, second: Seq<char>, json: bool },
    Caps,
}

impl View for Action {
    type V = ActionModel;

    open spec fn view(&self) -> ActionModel {
        match *self {
            Action::Scan { target, root, json } => ActionModel::Scan {
                target: target@,
                root: text_of(root),
                json,
            },
            Action::Diff { first, second, json } => ActionModel::Diff {
                first: first@,
                second: second@,
                json,
            },
            Action::Caps => ActionModel::Caps,
        }
    }
}

/// What a command with its arguments asks for, or why it cannot be done.
pub open spec fn action_for(command: Seq<char>, o: OptionsModel) -> Result<
    ActionModel,
    Seq<char>,
> {
    if command == "scan"@ && o.positional.len() == 1 {
        Ok(ActionModel::Scan { target: o.positional[0], root: o.root, json: o.json })
    } else if command == "diff"@ && o.positional.len() == 2 {
        if o.root is Some {
            Err("--root is not supported by diff"@)
        } else {
            Ok(
                ActionModel::Diff {
                    first: o.positional[0],
                    second: o.positional[1],
                    json: o.json,
                },
            )
        }
    } else if command == "caps"@ && o.positional.len() == 0 {
        Ok(ActionModel::Caps)
    } else if command == "scan"@ || command == "diff"@ || command == "caps"@ {
        Err("wrong arguments for "@ + command)
    } else {
        Err("unknown command "@ + command)
    }
}

fn wrong(message: &str, command: &str) -> (r: String)
    ensures
        r@ == message@ + command@,
{
    let mut out = owned(message);
    out.append(command);
    out
}

impl Invocation {
    /// What the command line asks for.
    pub fn action(self) -> (r: Result<Action, String>)
        ensures
            match r {
                Ok(a) => action_for(self.command@, self.options@) == Ok::<_, Seq<char>>(a@),
                Err(m) => action_for(self.command@, self.options@) == Err::<ActionModel, _>(m@),
            },
    {
        proof {
            reveal_strlit("scan");
            reveal_strlit("diff");
            reveal_strlit("caps");
            assert("scan"@[0] != "diff"@[0]);
            assert("scan"@[0] != "caps"@[0]);
            assert("diff"@[0] != "caps"@[0]);
        }
        let Invocation { command, options } = self;
        let given = &options.positional;
        assert(forall|i: int| 0 <= i < given@.len() ==> texts(given@)[i] == given@[i]@);
        if same_text(command.as_str(), "scan") {
            if given.len() == 1 {
                let target = given[0].clone();
                return Ok(Action::Scan { target, root: options.root, json: options.json });
            }
        } else if same_text(command.as_str(), "diff") {
            if given.len() == 2 {
                if options.root.is_some() {
                    return Err(owned("--root is not supported by diff"));
                }
                return Ok(
                    Action::Diff {
                        first: given[0].clone(),
                        second: given[1].clone(),
                        json: options.json,
                    },
                );
            }
        } else if same_text(command.as_str(), "caps") {
            if given.len() == 0 {
                return Ok(Action::Caps);
            }
        } else {
            return Err(wrong("unknown command ", command.as_str()));
        }
        Err(wrong("wrong arguments for ", command.as_str()))
    }
}

/// What to do with a command line before looking at its command.
#[derive(Debug, Clone, Copy, PartialEq, Eq, Structural)]
pub enum Request {
    /// Print the help text and exit with a status.
    Usage(u8),
    /// Print the version.
    Version,
    /// Run the command.
    Run,
}

pub open spec fn request_for(args: Seq<Seq<char>>) -> Request {
    if args.len() == 0 {
        Request::Usage(2)
    } else if args.contains("-h"@) || args.contains("--help"@) {
        Request::Usage(0)
    } else if args.contains("-V"@) || args.contains("--version"@) {
        Request::Version
    } else {
        Request::Run
    }
}

fn has_arg(args: &[String], arg: &str) -> (r: bool)
    ensures
        r == texts(args@).contains(arg@),
{
    let mut i: usize = 0;
    while i < args.len()
        invariant
            i <= args@.len(),
            forall|j: int| 0 <= j < i ==> #[trigger] texts(args@)[j] != arg@,
        decreases args@.len() - i,
    {
        assert(texts(args@)[i as int] == args@[i as int]@);
        if same_text(args[i].as_str(), arg) {
            return true;
        }
        i = i + 1;
    }
    false
}

pub fn request(args: &[String]) -> (r: Request)
    ensures
        r == request_for(texts(args@)),
{
    if args.len() == 0 {
        Request::Usage(2)
    } else if has_arg(args, "-h") || has_arg(args, "--help") {
        Request::Usage(0)
    } else if has_arg(args, "-V") || has_arg(args, "--version") {
        Request::Version
    } else {
        Request::Run
    }
}

/// The exit status after a comparison: 1 when there are changes.
pub fn diff_status(diff: &Diff) -> (r: u8)
    ensures
        r == (if is_no_change(diff@) {
            0u8
        } else {
            1u8
        }),
{
    if diff.is_empty() {
        0
    } else {
        1
    }
}

} // verus!
