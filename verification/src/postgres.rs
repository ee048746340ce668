//! The `pg-connect` command: waits for a PostgreSQL server and opens `psql`
//! on the same connection.

use crate::command_resolver;
use crate::command_resolver::resolve;
use crate::dialog;
use crate::dialog::{
    Answer, AnswerView, Request, RequestView, StageCall, StageCallView, Talk, TalkView,
};
use crate::text;
use crate::text::{cat2, cat3, same};
use vstd::prelude::*;

verus! {

/// Where to connect, and as whom.
#[derive(Debug, Clone, PartialEq, Eq)]
pub struct Options {
    pub host: String,
    pub port: String,
    pub database: String,
    pub user: String,
}

/// Where to connect, and as whom.
#[verifier::ext_equal]
pub struct OptionsView {
    pub host: Seq<char>,
    pub port: Seq<char>,
    pub database: Seq<char>,
    pub user: Seq<char>,
}

impl View for Options {
    type V = OptionsView;

    open spec fn view(&self) -> OptionsView {
        OptionsView {
            host: self.host@,
            port: self.port@,
            database: self.database@,
            user: self.user@,
        }
    }
}

impl OptionsView {
    /// The local server.
    pub open spec fn usual() -> OptionsView {
        OptionsView {
            host: "localhost"@,
            port: "5432"@,
            database: "postgres"@,
            user: "postgres"@,
        }
    }
}

impl Default for Options {
    fn default() -> (r: Options)
        ensures
            r@ == OptionsView::usual(),
    {
        Options {
            host: "localhost".to_owned(),
            port: "5432".to_owned(),
            database: "postgres".to_owned(),
            user: "postgres".to_owned(),
        }
    }
}

/// The options with one of them set; nothing when there is none of that name.
pub open spec fn with_option(o: OptionsView, name: Seq<char>, value: Seq<char>) -> Option<
    OptionsView,
> {
    if name == "--host"@ || name == "-h"@ {
        Some(OptionsView { host: value, ..o })
    } else if name == "--port"@ || name == "-p"@ {
        Some(OptionsView { port: value, ..o })
    } else if name == "--database"@ || name == "-d"@ {
        Some(OptionsView { database: value, ..o })
    } else if name == "--user"@ || name == "-U"@ {
        Some(OptionsView { user: value, ..o })
    } else {
        None
    }
}

/// What the arguments from `i` on make of the options, or a message.
pub open spec fn options_from(args: Seq<Seq<char>>, i: int, o: OptionsView) -> Result<
    OptionsView,
    Seq<char>,
>
    decreases args.len() - i,
{
    if i < 0 || i >= args.len() {
        Ok(o)
    } else if i + 1 >= args.len() {
        Err(args[i] + " requires a value"@)
    } else {
        match with_option(o, args[i], args[i + 1]) {
            Some(o2) => options_from(args, i + 2, o2),
            None => Err("unknown option '"@ + args[i] + "'"@),
        }
    }
}

/// What parsing gave.
pub open spec fn parse_view(r: Result<Options, String>) -> Result<OptionsView, Seq<char>> {
    match r {
        Ok(o) => Ok(o@),
        Err(e) => Err(e@),
    }
}

/// Reads the arguments of `pg-connect`.
pub fn parse_options(args: &[String]) -> (r: Result<Options, String>)
    ensures
        parse_view(r) == options_from(text::texts(args@), 0, OptionsView::usual()),
{
    let ghost all = text::texts(args@);
    let mut o = Options::default();
    let mut i: usize = 0;
    while i < args.len()
        invariant
            i <= args@.len(),
            all == text::texts(args@),
            options_from(all, 0, OptionsView::usual()) == options_from(all, i as int, o@),
        decreases args@.len() - i,
    {
        assert(all[i as int] == args@[i as int]@);
        if args.len() - i < 2 {
            return Err(cat2(args[i].as_str(), " requires a value"));
        }
        assert(i + 1 < args.len());
        assert(all[i + 1] == args@[i + 1]@);
        let name = args[i].as_str();
        let value = args[i + 1].clone();
        if same(name, "--host") || same(name, "-h") {
            o.host = value;
        } else if same(name, "--port") || same(name, "-p") {
            o.port = value;
        } else if same(name, "--database") || same(name, "-d") {
            o.database = value;
        } else if same(name, "--user") || same(name, "-U") {
            o.user = value;
        } else {
            return Err(cat3("unknown option '", name, "'"));
        }
        i = i + 2;
    }
    Ok(o)
}

/// What `psql` is called with.
pub open spec fn psql_arguments(o: OptionsView) -> Seq<Seq<char>> {
    seq!["-h"@, o.host, "-p"@, o.port, "-U"@, o.user, "-d"@, o.database]
}

/// What the readiness check is called with.
pub open spec fn probe_arguments(o: OptionsView) -> Seq<Seq<char>> {
    seq!["-q"@, "-h"@, o.host, "-p"@, o.port, "-U"@, o.user, "-d"@, o.database]
}

/// The arguments of `psql`.
pub fn psql_args(o: &Options) -> (r: Vec<String>)
    ensures
        text::texts(r@) == psql_arguments(o@),
{
    let mut v: Vec<String> = Vec::new();
    v.push("-h".to_owned());
    v.push(o.host.clone());
    v.push("-p".to_owned());
    v.push(o.port.clone());
    v.push("-U".to_owned());
    v.push(o.user.clone());
    v.push("-d".to_owned());
    v.push(o.database.clone());
    assert(text::texts(v@) =~= psql_arguments(o@));
    v
}

/// The arguments of the readiness check.
pub fn probe_args(o: &Options) -> (r: Vec<String>)
    ensures
        text::texts(r@) == probe_arguments(o@),
{
    let mut v: Vec<String> = Vec::new();
    v.push("-q".to_owned());
    v.push("-h".to_owned());
    v.push(o.host.clone());
    v.push("-p".to_owned());
    v.push(o.port.clone());
    v.push("-U".to_owned());
    v.push(o.user.clone());
    v.push("-d".to_owned());
    v.push(o.database.clone());
    assert(text::texts(v@) =~= probe_arguments(o@));
    v
}

/// How the wait for a server ended.
#[derive(Debug, Clone, PartialEq, Eq)]
pub enum Readiness {
    Ready,
    Interrupted,
    Failed(String),
    Unanswered,
}

/// How the wait for a server ended.
pub enum ReadinessView {
    Ready,
    Interrupted,
    Failed(Seq<char>),
    Unanswered,
}

impl View for Readiness {
    type V = ReadinessView;

    open spec fn view(&self) -> ReadinessView {
        match self {
            Readiness::Ready => ReadinessView::Ready,
            Readiness::Interrupted => ReadinessView::Interrupted,
            Readiness::Failed(e) => ReadinessView::Failed(e@),
            Readiness::Unanswered => ReadinessView::Unanswered,
        }
    }
}

/// Waits for a server: it is asked once a second until it is ready, the check
/// itself fails, or the user interrupts.
pub open spec fn awaited(program: Seq<char>, args: Seq<Seq<char>>, t: TalkView) -> (
    ReadinessView,
    TalkView,
)
    decreases t.answers.len() - t.next,
{
    let (i, t1) = dialog::asked(t, RequestView::TakeInterrupt);
    if i.as_truth() {
        (ReadinessView::Interrupted, t1)
    } else {
        let (a, t2) = dialog::asked(t1, RequestView::Probe(program, args));
        match a {
            AnswerView::Truth(ready) => if ready {
                (ReadinessView::Ready, t2)
            } else {
                awaited(program, args, dialog::asked(t2, RequestView::Pause(1)).1)
            },
            AnswerView::Failure(e) => (ReadinessView::Failed(e), t2),
            _ => (ReadinessView::Unanswered, t2),
        }
    }
}

/// Waits for a server.
pub fn wait_until_ready(program: &str, args: &[String], talk: &mut Talk) -> (r: Readiness)
    ensures
        (r@, final(talk)@) == awaited(program@, text::texts(args@), old(talk)@),
{
    let ghost all = text::texts(args@);
    loop
        invariant
            all == text::texts(args@),
            awaited(program@, all, old(talk)@) == awaited(program@, all, talk@),
        decreases talk@.answers.len() - talk@.next,
    {
        if talk.ask(Request::TakeInterrupt).truth() {
            return Readiness::Interrupted;
        }
        match talk.ask(Request::Probe(program.to_owned(), text::copy_texts(args))) {
            Answer::Truth(ready) => {
                if ready {
                    return Readiness::Ready;
                }
            },
            Answer::Failure(e) => {
                return Readiness::Failed(e);
            },
            _ => {
                return Readiness::Unanswered;
            },
        }
        let _slept = talk.ask(Request::Pause(1));
    }
}

/// A diagnostic of `pg-connect`.
pub open spec fn complaint(e: Seq<char>) -> Seq<char> {
    "ion-win: pg-connect: "@ + e
}

fn complain(e: &str, talk: &mut Talk)
    ensures
        final(talk)@ == dialog::noted(old(talk)@, complaint(e@)),
{
    talk.note(cat2("ion-win: pg-connect: ", e));
}

/// Whether `psql` succeeded on a server that is ready.
pub open spec fn session(o: OptionsView, psql: Seq<char>, t: TalkView) -> (bool, TalkView) {
    let t1 = dialog::told(
        t,
        StageCallView::Print("PostgreSQL is ready; opening psql as "@ + o.user + ".\n"@),
    );
    let (a, t2) = dialog::asked(t1, RequestView::WorkingDirectory);
    match a {
        AnswerView::Text(cwd) => {
            let (b, t3) = dialog::asked(
                t2,
                RequestView::RunForeground(psql, psql_arguments(o), cwd),
            );
            match b {
                AnswerView::Failure(e) => (
                    false,
                    dialog::noted(t3, complaint("failed to open psql: "@ + e)),
                ),
                _ => (b.as_truth(), t3),
            }
        },
        _ => (
            false,
            dialog::noted(t2, complaint("could not read current directory: "@ + a.as_failure())),
        ),
    }
}

/// Whether `pg-connect` succeeds, once its options are known.
pub open spec fn connection(o: OptionsView, t: TalkView) -> (bool, TalkView) {
    let (ready, t1) = command_resolver::resolved("pg_isready"@, t);
    match ready {
        None => (false, dialog::noted(t1, complaint("pg_isready was not found on PATH"@))),
        Some(pg_isready) => {
            let (client, t2) = command_resolver::resolved("psql"@, t1);
            match client {
                None => (false, dialog::noted(t2, complaint("psql was not found on PATH"@))),
                Some(psql) => {
                    let t3 = dialog::told(
                        t2,
                        StageCallView::Print(
                            "Waiting for PostgreSQL at "@ + o.host + ":"@ + o.port + " ...\n"@,
                        ),
                    );
                    let (w, t4) = awaited(pg_isready, probe_arguments(o), t3);
                    match w {
                        ReadinessView::Ready => session(o, psql, t4),
                        ReadinessView::Interrupted => (
                            false,
                            dialog::told(t4, StageCallView::Print("^C\n"@)),
                        ),
                        ReadinessView::Failed(e) => (
                            false,
                            dialog::noted(t4, complaint("readiness check failed: "@ + e)),
                        ),
                        ReadinessView::Unanswered => (false, t4),
                    }
                },
            }
        },
    }
}

/// How `pg-connect` is used.
pub open spec fn usage() -> Seq<char> {
    "usage: pg-connect [--host HOST] [--port PORT] [--database DATABASE] [--user USER]"@
}

/// Whether `pg-connect` succeeds.
pub open spec fn connected(args: Seq<Seq<char>>, t: TalkView) -> (bool, TalkView) {
    match options_from(args, 0, OptionsView::usual()) {
        Err(e) => (false, dialog::noted(dialog::noted(t, complaint(e)), usage())),
        Ok(o) => connection(o, t),
    }
}

fn open_session(o: &Options, psql: &str, talk: &mut Talk) -> (r: bool)
    ensures
        (r, final(talk)@) == session(o@, psql@, old(talk)@),
{
    talk.tell(
        StageCall::Print(cat3("PostgreSQL is ready; opening psql as ", o.user.as_str(), ".\n")),
    );
    match talk.ask(Request::WorkingDirectory) {
        Answer::Text(cwd) => match talk.ask(
            Request::RunForeground(psql.to_owned(), psql_args(o), cwd),
        ) {
            Answer::Failure(e) => {
                let message = cat2("failed to open psql: ", e.as_str());
                complain(message.as_str(), talk);
                false
            },
            other => other.truth(),
        },
        other => {
            let e = other.into_failure();
            let message = cat2("could not read current directory: ", e.as_str());
            complain(message.as_str(), talk);
            false
        },
    }
}

fn open_connection(o: &Options, talk: &mut Talk) -> (r: bool)
    ensures
        (r, final(talk)@) == connection(o@, old(talk)@),
{
    let pg_isready = match resolve("pg_isready", talk) {
        Some(p) => p,
        None => {
            complain("pg_isready was not found on PATH", talk);
            return false;
        },
    };
    let psql = match resolve("psql", talk) {
        Some(p) => p,
        None => {
            complain("psql was not found on PATH", talk);
            return false;
        },
    };
    let place = cat3(o.host.as_str(), ":", o.port.as_str());
    let line = cat3("Waiting for PostgreSQL at ", place.as_str(), " ...\n");
    assert(line@ =~= "Waiting for PostgreSQL at "@ + o.host@ + ":"@ + o.port@ + " ...\n"@);
    talk.tell(StageCall::Print(line));
    let args = probe_args(o);
    match wait_until_ready(pg_isready.as_str(), &args, talk) {
        Readiness::Ready => open_session(o, psql.as_str(), talk),
        Readiness::Interrupted => {
            talk.tell(StageCall::Print("^C\n".to_owned()));
            false
        },
        Readiness::Failed(e) => {
            let message = cat2("readiness check failed: ", e.as_str());
            complain(message.as_str(), talk);
            false
        },
        Readiness::Unanswered => false,
    }
}

/// Waits for a server and opens `psql` on it; whether that succeeded.
pub fn connect(args: &[String], talk: &mut Talk) -> (r: bool)
    ensures
        (r, final(talk)@) == connected(text::texts(args@), old(talk)@),
{
    match parse_options(args) {
        Err(e) => {
            complain(e.as_str(), talk);
            talk.note(
                "usage: pg-connect [--host HOST] [--port PORT] [--database DATABASE] [--user USER]".to_owned(),
            );
            false
        },
        Ok(o) => open_connection(&o, talk),
    }
}

/// The readiness check asks for the very connection that `psql` then opens.
pub proof fn law_same_connection(o: OptionsView)
    ensures
        probe_arguments(o) == seq!["-q"@] + psql_arguments(o),
{
    assert(probe_arguments(o) =~= seq!["-q"@] + psql_arguments(o));
}

/// An interrupt that is there when the server is asked for ends the wait
/// without a check.
pub proof fn law_interrupt_ends_the_wait(program: Seq<char>, args: Seq<Seq<char>>, t: TalkView)
    requires
        dialog::asked(t, RequestView::TakeInterrupt).0.as_truth(),
    ensures
        awaited(program, args, t) == (
            ReadinessView::Interrupted,
            dialog::asked(t, RequestView::TakeInterrupt).1,
        ),
{
}

/// Options that come later override those that came before.
pub proof fn law_last_option_wins(o: OptionsView, name: Seq<char>, a: Seq<char>, b: Seq<char>)
    requires
        with_option(o, name, a) is Some,
    ensures
        with_option(with_option(o, name, a)->0, name, b) == with_option(o, name, b),
{
}

/// Each option sets its own part of the connection and leaves the others.
pub proof fn law_options_set_their_own(o: OptionsView, value: Seq<char>)
    ensures
        with_option(o, "--host"@, value) == Some(OptionsView { host: value, ..o }),
        with_option(o, "-h"@, value) == Some(OptionsView { host: value, ..o }),
        with_option(o, "--port"@, value) == Some(OptionsView { port: value, ..o }),
        with_option(o, "-p"@, value) == Some(OptionsView { port: value, ..o }),
        with_option(o, "--database"@, value) == Some(OptionsView { database: value, ..o }),
        with_option(o, "-d"@, value) == Some(OptionsView { database: value, ..o }),
        with_option(o, "--user"@, value) == Some(OptionsView { user: value, ..o }),
        with_option(o, "-U"@, value) == Some(OptionsView { user: value, ..o }),
{
    reveal_strlit("--host");
    reveal_strlit("-h");
    reveal_strlit("--port");
    reveal_strlit("-p");
    reveal_strlit("--database");
    reveal_strlit("-d");
    reveal_strlit("--user");
    reveal_strlit("-U");
    assert("--host"@.len() == 6 && "--port"@.len() == 6 && "--user"@.len() == 6
        && "--database"@.len() == 10);
    assert("-h"@.len() == 2 && "-p"@.len() == 2 && "-d"@.len() == 2 && "-U"@.len() == 2);
    assert("--host"@[2] == 'h' && "--port"@[2] == 'p' && "--user"@[2] == 'u');
    assert("-h"@[1] == 'h' && "-p"@[1] == 'p' && "-d"@[1] == 'd' && "-U"@[1] == 'U');
}

/// Options are read in pairs, and one without a value is refused.
pub proof fn law_options_are_read_in_pairs(
    o: OptionsView,
    name: Seq<char>,
    value: Seq<char>,
)
    ensures
        options_from(Seq::empty(), 0, o) == Ok::<OptionsView, Seq<char>>(o),
        with_option(o, name, value) matches Some(o2) ==> options_from(seq![name, value], 0, o)
            == Ok::<OptionsView, Seq<char>>(o2),
        with_option(o, name, value) is None ==> options_from(seq![name, value], 0, o) is Err,
        options_from(seq![name], 0, o) is Err,
{
    let args = seq![name, value];
    assert(args[0] == name && args[1] == value);
    match with_option(o, name, value) {
        Some(o2) => {
            assert(options_from(args, 2, o2) == Ok::<OptionsView, Seq<char>>(o2));
        },
        None => {},
    }
}

/// The client is told the host, the port, the user and the database of the
/// connection, each behind its own flag.
pub proof fn law_client_is_told_the_connection(o: OptionsView)
    ensures
        ({
            let a = psql_arguments(o);
            &&& a.len() == 8
            &&& a[0] == "-h"@ && a[1] == o.host
            &&& a[2] == "-p"@ && a[3] == o.port
            &&& a[4] == "-U"@ && a[5] == o.user
            &&& a[6] == "-d"@ && a[7] == o.database
        }),
{
}

/// A server that is ready ends the wait; one that is not is asked again after
/// a second; a check that fails ends the wait with its message.
pub proof fn law_server_is_asked_until_ready(
    program: Seq<char>,
    args: Seq<Seq<char>>,
    t: TalkView,
)
    requires
        t.pending is None,
        0 <= t.next,
        t.next + 3 <= t.answers.len(),
        !t.answers[t.next].as_truth(),
    ensures
        ({
            let (r, t2) = awaited(program, args, t);
            let answer = t.answers[t.next + 1];
            let probed = t.made.push(RequestView::TakeInterrupt).push(
                RequestView::Probe(program, args),
            );
            &&& answer == AnswerView::Truth(true) ==> r is Ready && t2.made == probed
            &&& answer matches AnswerView::Failure(e) ==> r == ReadinessView::Failed(e) && t2.made
                == probed
            &&& answer == AnswerView::Truth(false) ==> (r, t2) == awaited(
                program,
                args,
                TalkView {
                    next: t.next + 3,
                    made: probed.push(RequestView::Pause(1)),
                    ..t
                },
            )
        }),
{
}

/// The client that was found is run in the working directory with the
/// connection's arguments, and the session goes as the client does.
pub proof fn law_session_goes_as_the_client(
    o: OptionsView,
    psql: Seq<char>,
    cwd: Seq<char>,
    t: TalkView,
)
    requires
        t.pending is None,
        0 <= t.next,
        t.next + 3 <= t.answers.len(),
        t.answers[t.next + 1] == AnswerView::Text(cwd),
    ensures
        ({
            let (r, t1) = session(o, psql, t);
            let end = t.answers[t.next + 2];
            &&& t1.made.len() == t.made.len() + 3
            &&& t1.made.last() == RequestView::RunForeground(psql, psql_arguments(o), cwd)
            &&& end matches AnswerView::Truth(b) ==> r == b && t1.notes == t.notes
            &&& end is Failure ==> !r && t1.notes.len() == t.notes.len() + 1
        }),
{
}

/// Options that are none are told of with the usage, and nothing is asked.
pub proof fn law_bad_options_connect_to_nothing(args: Seq<Seq<char>>, t: TalkView)
    requires
        options_from(args, 0, OptionsView::usual()) is Err,
    ensures
        !connected(args, t).0,
        connected(args, t).1.made == t.made,
        connected(args, t).1.pending == t.pending,
        connected(args, t).1.notes.last().text == usage(),
{
}

/// No connection is made without the program that asks the server: then the
/// client is not even looked for.
pub proof fn law_missing_tools_connect_to_nothing(o: OptionsView, t: TalkView)
    ensures
        ({
            let (ready, t1) = command_resolver::resolved("pg_isready"@, t);
            let (client, t2) = command_resolver::resolved("psql"@, t1);
            &&& ready is None ==> !connection(o, t).0 && connection(o, t).1.made == t1.made
            &&& ready is Some && client is None ==> !connection(o, t).0 && connection(o, t).1.made
                == t2.made
        }),
{
}

} // verus!
