//! Laws of the command line.

use crate::options::{
    action_for, no_options, options_from, request_for, ActionModel, OptionsModel, Request,
};
use crate::text::has_prefix;
use vstd::prelude::*;

verus! {

/// What arguments add to options that were read already.
pub open spec fn read(args: Seq<Seq<char>>, found: OptionsModel) -> Result<
    OptionsModel,
    Seq<char>,
> {
    options_from(args, 0, found)
}

proof fn lemma_shift(a: Seq<Seq<char>>, b: Seq<Seq<char>>, i: int, found: OptionsModel)
    requires
        0 <= i <= b.len(),
    ensures
        options_from(a + b, a.len() + i, found) == options_from(b, i, found),
    decreases b.len() - i,
{
    let all = a + b;
    if i < b.len() {
        assert(all[a.len() + i] == b[i]);
        if i + 1 < b.len() {
            assert(all[a.len() + i + 1] == b[i + 1]);
        }
        if b[i] == "--json"@ {
            lemma_shift(a, b, i + 1, OptionsModel { json: true, ..found });
        } else if b[i] == "--root"@ {
            if i + 1 < b.len() {
                lemma_shift(a, b, i + 2, OptionsModel { root: Some(b[i + 1]), ..found });
            }
        } else if b[i] == "--db"@ {
            if i + 1 < b.len() {
                lemma_shift(a, b, i + 2, OptionsModel { db: Some(b[i + 1]), ..found });
            }
        } else if !has_prefix(b[i], "--"@) {
            lemma_shift(
                a,
                b,
                i + 1,
                OptionsModel { positional: found.positional.push(b[i]), ..found },
            );
        }
    }
}

proof fn lemma_front(a: Seq<Seq<char>>, b: Seq<Seq<char>>, i: int, found: OptionsModel)
    requires
        0 <= i <= a.len(),
        options_from(a, i, found) is Ok,
    ensures
        options_from(a + b, i, found) == options_from(
            a + b,
            a.len() as int,
            options_from(a, i, found)->Ok_0,
        ),
    decreases a.len() - i,
{
    let all = a + b;
    if i < a.len() {
        assert(all[i] == a[i]);
        if i + 1 < a.len() {
            assert(all[i + 1] == a[i + 1]);
        }
        if a[i] == "--json"@ {
            lemma_front(a, b, i + 1, OptionsModel { json: true, ..found });
        } else if a[i] == "--root"@ {
            lemma_front(a, b, i + 2, OptionsModel { root: Some(a[i + 1]), ..found });
        } else if a[i] == "--db"@ {
            lemma_front(a, b, i + 2, OptionsModel { db: Some(a[i + 1]), ..found });
        } else {
            lemma_front(
                a,
                b,
                i + 1,
                OptionsModel { positional: found.positional.push(a[i]), ..found },
            );
        }
    }
}

/// Arguments are read from the left: those behind others that make sense add to what
/// these say.
pub proof fn law_arguments_are_read_from_the_left(
    a: Seq<Seq<char>>,
    b: Seq<Seq<char>>,
    found: OptionsModel,
)
    requires
        read(a, found) is Ok,
    ensures
        read(a + b, found) == read(b, read(a, found)->Ok_0),
{
    lemma_front(a, b, 0, found);
    lemma_shift(a, b, 0, read(a, found)->Ok_0);
}

/// A text that starts with two dashes.
pub open spec fn is_dashed(arg: Seq<char>) -> bool {
    arg.len() >= 2 && arg[0] == '-' && arg[1] == '-'
}

/// `--json` is a switch; `--root` and `--db` take the argument behind them, whatever
/// that is, and replace an earlier value; any other argument with two dashes is an
/// error, whatever follows it; and the rest are positional, in order. At first nothing
/// is set.
pub proof fn law_each_argument_has_its_meaning(
    found: OptionsModel,
    arg: Seq<char>,
    rest: Seq<Seq<char>>,
)
    ensures
        no_options().positional.len() == 0 && !no_options().json && no_options().root is None
            && no_options().db is None,
        read(Seq::empty(), found) == Ok::<OptionsModel, Seq<char>>(found),
        read(seq!["--json"@], found) == Ok::<OptionsModel, Seq<char>>(
            OptionsModel { json: true, ..found },
        ),
        read(seq!["--root"@, arg], found) == Ok::<OptionsModel, Seq<char>>(
            OptionsModel { root: Some(arg), ..found },
        ),
        read(seq!["--db"@, arg], found) == Ok::<OptionsModel, Seq<char>>(
            OptionsModel { db: Some(arg), ..found },
        ),
        read(seq!["--root"@], found) == Err::<OptionsModel, Seq<char>>("--root needs a directory"@),
        read(seq!["--db"@], found) == Err::<OptionsModel, Seq<char>>("--db needs a file"@),
        !is_dashed(arg) ==> read(seq![arg], found) == Ok::<OptionsModel, Seq<char>>(
            OptionsModel { positional: found.positional.push(arg), ..found },
        ),
        is_dashed(arg) && arg != "--json"@ && arg != "--root"@ && arg != "--db"@ ==> read(
            seq![arg] + rest,
            found,
        ) == Err::<OptionsModel, Seq<char>>("unknown option "@ + arg),
{
    reveal_strlit("--json");
    reveal_strlit("--root");
    reveal_strlit("--db");
    reveal_strlit("--");
    assert("--json"@.len() == 6 && "--root"@.len() == 6 && "--db"@.len() == 4);
    assert("--json"@[2] == 'j' && "--root"@[2] == 'r');
    assert(is_dashed("--json"@) && is_dashed("--root"@) && is_dashed("--db"@));
    assert(has_prefix(arg, "--"@) == is_dashed(arg)) by {
        if is_dashed(arg) {
            assert(arg.subrange(0, 2) =~= "--"@);
        }
        if has_prefix(arg, "--"@) {
            assert(arg.subrange(0, 2)[0] == '-' && arg.subrange(0, 2)[1] == '-');
        }
    }
    reveal_with_fuel(options_from, 3);
    assert((seq![arg] + rest)[0] == arg);
}

/// What each command needs: `scan` one target and perhaps a root, `diff` two targets and
/// no root, `caps` nothing. What is asked for holds the arguments in their places.
pub proof fn law_commands_take_their_arguments(o: OptionsModel, command: Seq<char>)
    ensures
        o.positional.len() == 1 ==> action_for("scan"@, o) == Ok::<ActionModel, Seq<char>>(
            ActionModel::Scan { target: o.positional[0], root: o.root, json: o.json },
        ),
        o.positional.len() == 2 && o.root is None ==> action_for("diff"@, o) == Ok::<
            ActionModel,
            Seq<char>,
        >(
            ActionModel::Diff {
                first: o.positional[0],
                second: o.positional[1],
                json: o.json,
            },
        ),
        o.positional.len() == 2 && o.root is Some ==> action_for("diff"@, o) is Err,
        o.positional.len() == 0 ==> action_for("caps"@, o) == Ok::<ActionModel, Seq<char>>(
            ActionModel::Caps,
        ),
        o.positional.len() != 1 ==> action_for("scan"@, o) is Err,
        o.positional.len() != 2 ==> action_for("diff"@, o) is Err,
        o.positional.len() != 0 ==> action_for("caps"@, o) is Err,
        command != "scan"@ && command != "diff"@ && command != "caps"@ ==> action_for(command, o)
            == Err::<ActionModel, Seq<char>>("unknown command "@ + command),
{
    reveal_strlit("scan");
    reveal_strlit("diff");
    reveal_strlit("caps");
    assert("scan"@[0] == 's' && "diff"@[0] == 'd' && "caps"@[0] == 'c');
}

/// Help goes before the version, and both go before a command, wherever they stand
/// among the arguments; without arguments the usage is shown as an error.
pub proof fn law_help_goes_first(before: Seq<Seq<char>>, arg: Seq<char>, after: Seq<Seq<char>>)
    ensures
        request_for(Seq::empty()) == Request::Usage(2),
        arg == "-h"@ || arg == "--help"@ ==> request_for(before + seq![arg] + after)
            == Request::Usage(0),
        (arg == "-V"@ || arg == "--version"@) && !before.contains("-h"@) && !before.contains(
            "--help"@,
        ) && !after.contains("-h"@) && !after.contains("--help"@) ==> request_for(
            before + seq![arg] + after,
        ) == Request::Version,
        after.len() > 0 && !after.contains("-h"@) && !after.contains("--help"@) && !after.contains(
            "-V"@,
        ) && !after.contains("--version"@) ==> request_for(after) == Request::Run,
{
    let all = before + seq![arg] + after;
    assert(all[before.len() as int] == arg);
    assert(all.contains(arg));
    if arg == "-V"@ || arg == "--version"@ {
        reveal_strlit("-h");
        reveal_strlit("--help");
        reveal_strlit("-V");
        reveal_strlit("--version");
        assert("-h"@[1] == 'h' && "-V"@[1] == 'V' && "--help"@[1] == '-' && "--version"@[1] == '-');
        assert("--help"@[2] == 'h' && "--version"@[2] == 'v');
        assert forall|other: Seq<char>|
            other != arg && #[trigger] all.contains(other) implies before.contains(other)
            || after.contains(other) by {
            let k = choose|k: int| 0 <= k < all.len() && all[k] == other;
            if k < before.len() {
                assert(before[k] == other);
            } else if k > before.len() {
                assert(after[k - before.len() - 1] == other);
            }
        }
    }
}

} // verus!
