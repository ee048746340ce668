//! Arguments of the file commands: options among paths.

use crate::text;
use crate::text::{cat3, has_prefix, same};
use vstd::prelude::*;

verus! {

/// What the first `n` arguments of a command say: whether to force, and the
/// arguments that are no options. An argument that begins with `dashes` and
/// is no known option is refused, and so is a call for help, with the usage.
pub open spec fn force_flags(
    args: Seq<Seq<char>>,
    n: int,
    name: Seq<char>,
    usage: Seq<char>,
    dashes: Seq<char>,
) -> Result<(bool, Seq<Seq<char>>), Seq<char>>
    decreases n,
{
    if n <= 0 {
        Ok((false, Seq::empty()))
    } else {
        match force_flags(args, n - 1, name, usage, dashes) {
            Err(e) => Err(e),
            Ok((force, rest)) => {
                let arg = args[n - 1];
                if arg == "--force"@ || arg == "-f"@ {
                    Ok((true, rest))
                } else if arg == "--help"@ || arg == "-h"@ {
                    Err(usage)
                } else if text::begins_with(arg, dashes) {
                    Err(name + ": unknown option: "@ + arg)
                } else {
                    Ok((force, rest.push(arg)))
                }
            },
        }
    }
}

proof fn lemma_refused_stays(
    args: Seq<Seq<char>>,
    n: int,
    m: int,
    name: Seq<char>,
    usage: Seq<char>,
    dashes: Seq<char>,
)
    requires
        0 <= n <= m,
        force_flags(args, n, name, usage, dashes) is Err,
    ensures
        force_flags(args, m, name, usage, dashes) == force_flags(args, n, name, usage, dashes),
    decreases m - n,
{
    if n < m {
        lemma_refused_stays(args, n, m - 1, name, usage, dashes);
    }
}

/// What reading flags gives.
pub open spec fn flags_outcome(r: Result<(bool, Vec<String>), String>) -> Result<
    (bool, Seq<Seq<char>>),
    Seq<char>,
> {
    match r {
        Ok((force, rest)) => Ok((force, text::texts(rest@))),
        Err(e) => Err(e@),
    }
}

/// Splits `--force` and `--help` from the other arguments of a command.
pub fn parse_force_flags(args: &[String], name: &str, usage: &str, dashes: &str) -> (r: Result<
    (bool, Vec<String>),
    String,
>)
    ensures
        flags_outcome(r) == force_flags(
            text::texts(args@),
            args@.len() as int,
            name@,
            usage@,
            dashes@,
        ),
{
    let ghost all = text::texts(args@);
    let mut force = false;
    let mut rest: Vec<String> = Vec::new();
    assert(text::texts(rest@) =~= Seq::<Seq<char>>::empty());
    let mut i: usize = 0;
    while i < args.len()
        invariant
            i <= args@.len(),
            all == text::texts(args@),
            force_flags(all, i as int, name@, usage@, dashes@) == Ok::<
                (bool, Seq<Seq<char>>),
                Seq<char>,
            >((force, text::texts(rest@))),
        decreases args@.len() - i,
    {
        let arg = args[i].as_str();
        assert(all[i as int] == arg@);
        proof {
            if force_flags(all, i + 1, name@, usage@, dashes@) is Err {
                lemma_refused_stays(all, i + 1, args@.len() as int, name@, usage@, dashes@);
            }
        }
        if same(arg, "--force") || same(arg, "-f") {
            force = true;
        } else if same(arg, "--help") || same(arg, "-h") {
            return Err(usage.to_owned());
        } else if has_prefix(arg, dashes) {
            return Err(cat3(name, ": unknown option: ", arg));
        } else {
            let path = args[i].clone();
            proof {
                text::lemma_texts_push(rest@, path);
            }
            rest.push(path);
        }
        i = i + 1;
    }
    Ok((force, rest))
}

proof fn lemma_flags_before(
    args: Seq<Seq<char>>,
    more: Seq<char>,
    n: int,
    name: Seq<char>,
    usage: Seq<char>,
    dashes: Seq<char>,
)
    requires
        n <= args.len(),
    ensures
        force_flags(args.push(more), n, name, usage, dashes) == force_flags(
            args,
            n,
            name,
            usage,
            dashes,
        ),
    decreases n,
{
    if n > 0 {
        lemma_flags_before(args, more, n - 1, name, usage, dashes);
        assert(args.push(more)[n - 1] == args[n - 1]);
    }
}

/// One more argument: `--force` and `-f` force and are no words, `--help` and
/// `-h` give the usage, and what does not begin like an option is one more
/// word. Without arguments nothing is forced.
pub proof fn law_one_more_argument(
    args: Seq<Seq<char>>,
    more: Seq<char>,
    name: Seq<char>,
    usage: Seq<char>,
    dashes: Seq<char>,
)
    requires
        dashes == "-"@ || dashes == "--"@,
    ensures
        ({
            let before = force_flags(args, args.len() as int, name, usage, dashes);
            let after = force_flags(args.push(more), args.len() as int + 1, name, usage, dashes);
            &&& before matches Ok((force, rest)) ==> {
                &&& more == "--force"@ || more == "-f"@ ==> after == Ok::<
                    (bool, Seq<Seq<char>>),
                    Seq<char>,
                >((true, rest))
                &&& more == "--help"@ || more == "-h"@ ==> after == Err::<
                    (bool, Seq<Seq<char>>),
                    Seq<char>,
                >(usage)
                &&& more.len() == 0 || more[0] != '-' ==> after == Ok::<
                    (bool, Seq<Seq<char>>),
                    Seq<char>,
                >((force, rest.push(more)))
            }
            &&& before is Err ==> after is Err
            &&& force_flags(Seq::empty(), 0, name, usage, dashes) == Ok::<
                (bool, Seq<Seq<char>>),
                Seq<char>,
            >((false, Seq::empty()))
        }),
{
    lemma_flags_before(args, more, args.len() as int, name, usage, dashes);
    assert(args.push(more)[args.len() as int] == more);
    reveal_strlit("-");
    reveal_strlit("--");
    reveal_strlit("--force");
    reveal_strlit("-f");
    reveal_strlit("--help");
    reveal_strlit("-h");
    assert("--force"@.len() == 7 && "-f"@.len() == 2 && "--help"@.len() == 6 && "-h"@.len() == 2);
    assert("--force"@[0] == '-' && "-f"@[0] == '-' && "--help"@[0] == '-' && "-h"@[0] == '-');
    assert("-f"@[1] == 'f' && "-h"@[1] == 'h');
    assert("-"@.len() == 1 && "--"@.len() == 2 && "-"@[0] == '-' && "--"@[0] == '-');
    if text::begins_with(more, dashes) {
        assert(more.take(dashes.len() as int)[0] == more[0]);
    }
}

/// Whether none of some arguments begins with a dash.
pub open spec fn all_plain(args: Seq<Seq<char>>) -> bool {
    forall|i: int| 0 <= i < args.len() ==> (#[trigger] args[i]).len() == 0 || args[i][0] != '-'
}

/// Arguments without dashes are all names, in order, and force nothing; a
/// `--force` or `-f` behind them forces and is no name.
pub proof fn law_plain_arguments_are_names(
    args: Seq<Seq<char>>,
    word: Seq<char>,
    name: Seq<char>,
    usage: Seq<char>,
    dashes: Seq<char>,
)
    requires
        all_plain(args),
        dashes == "-"@ || dashes == "--"@,
    ensures
        force_flags(args, args.len() as int, name, usage, dashes) == Ok::<
            (bool, Seq<Seq<char>>),
            Seq<char>,
        >((false, args)),
        word == "--force"@ || word == "-f"@ ==> force_flags(
            args.push(word),
            args.len() as int + 1,
            name,
            usage,
            dashes,
        ) == Ok::<(bool, Seq<Seq<char>>), Seq<char>>((true, args)),
    decreases args.len(),
{
    if args.len() > 0 {
        let front = args.drop_last();
        assert forall|i: int| 0 <= i < front.len() implies (#[trigger] front[i]).len() == 0
            || front[i][0] != '-' by {
            assert(front[i] == args[i]);
        }
        law_plain_arguments_are_names(front, word, name, usage, dashes);
        assert(args[args.len() - 1] == args.last());
        law_one_more_argument(front, args.last(), name, usage, dashes);
        assert(front.push(args.last()) =~= args);
    } else {
        assert(args =~= Seq::<Seq<char>>::empty());
    }
    law_one_more_argument(args, word, name, usage, dashes);
}

} // verus!
