//! The command line of the map server.

use crate::text::{same_text, texts};
use vstd::prelude::*;

verus! {

/// What the command line asks for.
pub enum Command {
    /// To serve a map: the environment file and the map file.
    Serve { dme_path: String, dmm_path: String },
    /// To show how the program is used.
    Help,
}

/// What a [`Command`] holds.
#[verifier::ext_equal]
pub enum CommandView {
    Serve { dme_path: Seq<char>, dmm_path: Seq<char> },
    Help,
}

impl View for Command {
    type V = CommandView;

    open spec fn view(&self) -> CommandView {
        match self {
            Command::Serve { dme_path, dmm_path } => CommandView::Serve { dme_path: dme_path@, dmm_path: dmm_path@ },
            Command::Help => CommandView::Help,
        }
    }
}

/// Whether an argument asks for help.
pub open spec fn asks_for_help(arg: Seq<char>) -> bool {
    arg == "--help"@ || arg == "-h"@
}

/// Whether an argument is an option that takes a value.
pub open spec fn takes_value(arg: Seq<char>) -> bool {
    arg == "--dme"@ || arg == "--dmm"@
}

/// Whether every option that is read has its value. Nothing is read after a request for help, or
/// after an argument that is not known.
pub open spec fn values_given(args: Seq<Seq<char>>) -> bool
    decreases args.len(),
{
    if args.len() == 0 || !takes_value(args[0]) {
        true
    } else {
        args.len() >= 2 && values_given(args.skip(2))
    }
}

/// What arguments ask for, after some have been read: the last value of an option counts.
pub open spec fn asked(
    args: Seq<Seq<char>>,
    dme: Option<Seq<char>>,
    dmm: Option<Seq<char>>,
) -> Result<CommandView, Seq<char>>
    decreases args.len(),
{
    if args.len() == 0 {
        match (dme, dmm) {
            (None, _) => Err("Missing --dme argument"@),
            (Some(_), None) => Err("Missing --dmm argument"@),
            (Some(e), Some(m)) => Ok(CommandView::Serve { dme_path: e, dmm_path: m }),
        }
    } else if args[0] == "--dme"@ && args.len() >= 2 {
        asked(args.skip(2), Some(args[1]), dmm)
    } else if args[0] == "--dmm"@ && args.len() >= 2 {
        asked(args.skip(2), dme, Some(args[1]))
    } else if asks_for_help(args[0]) {
        Ok(CommandView::Help)
    } else {
        Err("Unknown argument: "@ + args[0] + ". Use --help for usage."@)
    }
}

/// The view of what came out of reading the command line.
pub open spec fn command_view(r: Result<Command, String>) -> Result<CommandView, Seq<char>> {
    match r {
        Ok(c) => Ok(c@),
        Err(e) => Err(e@),
    }
}

/// Tests whether every option that is read has its value. The first argument, the name of the
/// program, is not read.
pub fn has_values(args: &Vec<String>) -> (r: bool)
    requires
        args@.len() > 0,
    ensures
        r == values_given(texts(args@).skip(1)),
{
    let ghost all = texts(args@);
    let mut i: usize = 1;
    loop
        invariant
            1 <= i <= args@.len(),
            all == texts(args@),
            values_given(all.skip(i as int)) == values_given(all.skip(1)),
        decreases args@.len() - i,
    {
        let ghost rest = all.skip(i as int);
        if i == args.len() {
            return true;
        }
        assert(rest[0] == args@[i as int]@);
        if !same_text(args[i].as_str(), "--dme") && !same_text(args[i].as_str(), "--dmm") {
            return true;
        }
        if args.len() - i < 2 {
            return false;
        }
        assert(rest.skip(2) =~= all.skip(i + 2));
        i = i + 2;
    }
}

/// Reads the command line. The first argument, the name of the program, is not read.
pub fn parse_args(args: &Vec<String>) -> (r: Result<Command, String>)
    requires
        args@.len() > 0,
        values_given(texts(args@).skip(1)),
    ensures
        command_view(r) == asked(texts(args@).skip(1), None, None),
{
    let ghost all = texts(args@);
    let mut dme: Option<String> = None;
    let mut dmm: Option<String> = None;
    let mut i: usize = 1;
    loop
        invariant
            1 <= i <= args@.len(),
            all == texts(args@),
            values_given(all.skip(i as int)),
            asked(all.skip(i as int), crate::prefab::opt_text(dme), crate::prefab::opt_text(dmm)) == asked(
                all.skip(1),
                None,
                None,
            ),
        decreases args@.len() - i,
    {
        let ghost rest = all.skip(i as int);
        if i == args.len() {
            return match dme {
                None => Err("Missing --dme argument".to_string()),
                Some(e) => match dmm {
                    None => Err("Missing --dmm argument".to_string()),
                    Some(m) => Ok(Command::Serve { dme_path: e, dmm_path: m }),
                },
            };
        }
        let arg = args[i].as_str();
        assert(rest[0] == arg@);
        if same_text(arg, "--dme") {
            assert(rest[1] == args@[i + 1]@);
            assert(rest.skip(2) =~= all.skip(i + 2));
            dme = Some(args[i + 1].clone());
        } else if same_text(arg, "--dmm") {
            assert(rest[1] == args@[i + 1]@);
            assert(rest.skip(2) =~= all.skip(i + 2));
            dmm = Some(args[i + 1].clone());
        } else if same_text(arg, "--help") || same_text(arg, "-h") {
            return Ok(Command::Help);
        } else {
            let mut e = "Unknown argument: ".to_string();
            e.append(arg);
            e.append(". Use --help for usage.");
            return Err(e);
        }
        i = i + 2;
    }
}

// ── Laws ─────────────────────────────────────────────────────────────

/// The value of an option is what follows it, and the last one counts; the two options may come
/// in either order, and each stands for its own file.
pub proof fn options_come_in_any_order(e: Seq<char>, m: Seq<char>, other: Seq<char>)
    ensures
        asked(seq!["--dme"@, e, "--dmm"@, m], None, None) == Ok::<CommandView, Seq<char>>(
            CommandView::Serve { dme_path: e, dmm_path: m },
        ),
        asked(seq!["--dmm"@, m, "--dme"@, e], None, None) == Ok::<CommandView, Seq<char>>(
            CommandView::Serve { dme_path: e, dmm_path: m },
        ),
        asked(seq!["--dme"@, other, "--dmm"@, m, "--dme"@, e], None, None) == Ok::<CommandView, Seq<char>>(
            CommandView::Serve { dme_path: e, dmm_path: m },
        ),
        asked(seq!["--dme"@, e], None, None) == Err::<CommandView, Seq<char>>("Missing --dmm argument"@),
        asked(seq!["--dmm"@, m], None, None) == Err::<CommandView, Seq<char>>("Missing --dme argument"@),
        asked(Seq::empty(), None, None) == Err::<CommandView, Seq<char>>("Missing --dme argument"@),
{
    reveal_strlit("--dme");
    reveal_strlit("--dmm");
    assert("--dme"@[4] == 'e' && "--dmm"@[4] == 'm');
    reveal_with_fuel(asked, 5);
    let a = seq!["--dme"@, e, "--dmm"@, m];
    assert(a.skip(2) =~= seq!["--dmm"@, m]);
    assert(seq!["--dmm"@, m].skip(2) =~= Seq::<Seq<char>>::empty());
    let b = seq!["--dmm"@, m, "--dme"@, e];
    assert(b.skip(2) =~= seq!["--dme"@, e]);
    assert(seq!["--dme"@, e].skip(2) =~= Seq::<Seq<char>>::empty());
    let c = seq!["--dme"@, other, "--dmm"@, m, "--dme"@, e];
    assert(c.skip(2) =~= b);
}

/// An option with its value is read in front of whatever follows; a request for help is answered
/// whatever was read before it, and an argument that is not known is refused by name.
pub proof fn arguments_are_read_in_order(
    rest: Seq<Seq<char>>,
    value: Seq<char>,
    other: Seq<char>,
    dme: Option<Seq<char>>,
    dmm: Option<Seq<char>>,
)
    requires
        other != "--dme"@,
        other != "--dmm"@,
        other != "--help"@,
        other != "-h"@,
    ensures
        asked(seq!["--dme"@, value] + rest, dme, dmm) == asked(rest, Some(value), dmm),
        asked(seq!["--dmm"@, value] + rest, dme, dmm) == asked(rest, dme, Some(value)),
        asked(seq!["--help"@] + rest, dme, dmm) == Ok::<CommandView, Seq<char>>(CommandView::Help),
        asked(seq!["-h"@] + rest, dme, dmm) == Ok::<CommandView, Seq<char>>(CommandView::Help),
        asked(seq![other] + rest, dme, dmm) == Err::<CommandView, Seq<char>>(
            "Unknown argument: "@ + other + ". Use --help for usage."@,
        ),
        values_given(seq!["--dme"@, value] + rest) == values_given(rest),
        values_given(seq!["--dmm"@, value] + rest) == values_given(rest),
        !values_given(seq!["--dme"@]),
        !values_given(seq!["--dmm"@]),
        values_given(seq![other] + rest),
{
    reveal_strlit("--dme");
    reveal_strlit("--dmm");
    reveal_strlit("--help");
    reveal_strlit("-h");
    assert("--dme"@[4] == 'e' && "--dmm"@[4] == 'm');
    assert("--help"@.len() == 6 && "-h"@.len() == 2 && "--dme"@.len() == 5 && "--dmm"@.len() == 5);
    assert((seq!["--dme"@, value] + rest).skip(2) =~= rest);
    assert((seq!["--dmm"@, value] + rest).skip(2) =~= rest);
}

} // verus!
