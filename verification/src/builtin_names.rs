//! The words that the shell knows, and the help on them.
//!
//! One list serves completion, highlighting and the command index.

use crate::text;
use crate::text::{cat2, cat3, cat4, chars_of, code_of, join_texts, same, text_of};
use vstd::prelude::*;

verus! {

/// A word that the shell knows.
#[derive(Debug, Clone, Copy)]
pub struct Builtin {
    /// The word itself.
    pub name: &'static str,
    /// Whether it is a word of the language rather than a command.
    pub is_keyword: bool,
    /// How it stands in the command index; another entry shows it where this
    /// is missing.
    pub help_display: Option<&'static str>,
}

/// What is known of a word.
#[verifier::ext_equal]
pub struct BuiltinView {
    pub name: Seq<char>,
    pub is_keyword: bool,
    pub help_display: Option<Seq<char>>,
}

impl View for Builtin {
    type V = BuiltinView;

    open spec fn view(&self) -> BuiltinView {
        BuiltinView {
            name: self.name@,
            is_keyword: self.is_keyword,
            help_display: match self.help_display {
                Some(s) => Some(s@),
                None => None,
            },
        }
    }
}

/// What is known of the words of a list.
pub open spec fn builtin_views(list: Seq<Builtin>) -> Seq<BuiltinView> {
    Seq::new(list.len(), |i: int| list[i]@)
}

/// A word of the language.
pub open spec fn keyword(name: Seq<char>, help: Seq<char>) -> BuiltinView {
    BuiltinView { name, is_keyword: true, help_display: Some(help) }
}

/// A command.
pub open spec fn command(name: Seq<char>, help: Seq<char>) -> BuiltinView {
    BuiltinView { name, is_keyword: false, help_display: Some(help) }
}

/// A word that another entry of the index shows.
pub open spec fn unlisted(name: Seq<char>, is_keyword: bool) -> BuiltinView {
    BuiltinView { name, is_keyword, help_display: None }
}

fn new_keyword(name: &'static str, help: &'static str) -> (r: Builtin)
    ensures
        r@ == keyword(name@, help@),
{
    Builtin { name, is_keyword: true, help_display: Some(help) }
}

fn new_command(name: &'static str, help: &'static str) -> (r: Builtin)
    ensures
        r@ == command(name@, help@),
{
    Builtin { name, is_keyword: false, help_display: Some(help) }
}

fn new_unlisted(name: &'static str, is_keyword: bool) -> (r: Builtin)
    ensures
        r@ == unlisted(name@, is_keyword),
{
    Builtin { name, is_keyword, help_display: None }
}

/// Part 1 of the words that the shell knows.
pub open spec fn words_1() -> Seq<BuiltinView> {
    seq![
        command("exit"@, "exit"@),
        unlisted("quit"@, false),
        command("help"@, "help"@),
        keyword("let"@, "let"@),
        keyword("export"@, "export"@),
        keyword("drop"@, "drop"@),
        command("read"@, "read"@),
        command("echo"@, "echo"@),
        command("cd"@, "cd"@),
        command("pushd"@, "pushd DIRECTORY"@),
        command("popd"@, "popd"@),
        command("pwd"@, "pwd"@),
        command("dirs"@, "dirs"@),
        command("folders"@, "folders"@),
        command("files"@, "files"@),
        command("find"@, "find [--all] [--recurse] [PATH]"@),
    ]
}

fn list_1() -> (r: Vec<Builtin>)
    ensures
        builtin_views(r@) == words_1(),
{
    let r: Vec<Builtin> = vec![
        new_command("exit", "exit"),
        new_unlisted("quit", false),
        new_command("help", "help"),
        new_keyword("let", "let"),
        new_keyword("export", "export"),
        new_keyword("drop", "drop"),
        new_command("read", "read"),
        new_command("echo", "echo"),
        new_command("cd", "cd"),
        new_command("pushd", "pushd DIRECTORY"),
        new_command("popd", "popd"),
        new_command("pwd", "pwd"),
        new_command("dirs", "dirs"),
        new_command("folders", "folders"),
        new_command("files", "files"),
        new_command("find", "find [--all] [--recurse] [PATH]"),
    ];
    assert(builtin_views(r@) =~= words_1());
    r
}

/// Part 2 of the words that the shell knows.
pub open spec fn words_2() -> Seq<BuiltinView> {
    seq![
        command("cat"@, "cat FILE..."@),
        command("stat"@, "stat FILE... [--hash sha256]"@),
        command("copy"@, "copy/cp [--force] SRC... DEST"@),
        unlisted("cp"@, false),
        command("mkdir"@, "mkdir/md DIR..."@),
        unlisted("md"@, false),
        command("move"@, "move/mv [--force] SRC... DEST"@),
        unlisted("mv"@, false),
        command("rename"@, "rename/ren [--force] SOURCE NEW_NAME"@),
        unlisted("ren"@, false),
        command("compress"@, "compress [--force] SRC... DEST.zip"@),
        command("delete"@, "delete [--recurse] PATH..."@),
        keyword("if"@, "if/else if/else"@),
        unlisted("else"@, true),
        keyword("while"@, "while"@),
        keyword("for"@, "for/in"@),
    ]
}

fn list_2() -> (r: Vec<Builtin>)
    ensures
        builtin_views(r@) == words_2(),
{
    let r: Vec<Builtin> = vec![
        new_command("cat", "cat FILE..."),
        new_command("stat", "stat FILE... [--hash sha256]"),
        new_command("copy", "copy/cp [--force] SRC... DEST"),
        new_unlisted("cp", false),
        new_command("mkdir", "mkdir/md DIR..."),
        new_unlisted("md", false),
        new_command("move", "move/mv [--force] SRC... DEST"),
        new_unlisted("mv", false),
        new_command("rename", "rename/ren [--force] SOURCE NEW_NAME"),
        new_unlisted("ren", false),
        new_command("compress", "compress [--force] SRC... DEST.zip"),
        new_command("delete", "delete [--recurse] PATH..."),
        new_keyword("if", "if/else if/else"),
        new_unlisted("else", true),
        new_keyword("while", "while"),
        new_keyword("for", "for/in"),
    ];
    assert(builtin_views(r@) =~= words_2());
    r
}

/// Part 3 of the words that the shell knows.
pub open spec fn words_3() -> Seq<BuiltinView> {
    seq![
        unlisted("in"@, true),
        keyword("fn"@, "fn"@),
        keyword("match"@, "match/case"@),
        unlisted("case"@, true),
        unlisted("end"@, true),
        keyword("break"@, "break"@),
        keyword("continue"@, "continue"@),
        command("test"@, "test"@),
        command("matches"@, "matches"@),
        keyword("not"@, "not"@),
        command("true"@, "true"@),
        command("false"@, "false"@),
        command("bool"@, "bool"@),
        command("contains"@, "contains"@),
        command("starts-with"@, "starts-with"@),
        command("ends-with"@, "ends-with"@),
    ]
}

fn list_3() -> (r: Vec<Builtin>)
    ensures
        builtin_views(r@) == words_3(),
{
    let r: Vec<Builtin> = vec![
        new_unlisted("in", true),
        new_keyword("fn", "fn"),
        new_keyword("match", "match/case"),
        new_unlisted("case", true),
        new_unlisted("end", true),
        new_keyword("break", "break"),
        new_keyword("continue", "continue"),
        new_command("test", "test"),
        new_command("matches", "matches"),
        new_keyword("not", "not"),
        new_command("true", "true"),
        new_command("false", "false"),
        new_command("bool", "bool"),
        new_command("contains", "contains"),
        new_command("starts-with", "starts-with"),
        new_command("ends-with", "ends-with"),
    ];
    assert(builtin_views(r@) =~= words_3());
    r
}

/// Part 4 of the words that the shell knows.
pub open spec fn words_4() -> Seq<BuiltinView> {
    seq![
        command("eq"@, "eq/is"@),
        unlisted("is"@, false),
        command("exists"@, "exists"@),
        command("intersects"@, "intersects"@),
        command("isatty"@, "isatty"@),
        keyword("and"@, "and"@),
        keyword("or"@, "or"@),
        command("which"@, "which/type"@),
        unlisted("type"@, false),
        command("eval"@, "eval"@),
        command("pvar"@, "pvar set|get|list|delete"@),
        command("dmark"@, "dmark add|list|jump"@),
        command("jobs"@, "jobs"@),
        command("wait"@, "wait"@),
        command("disown"@, "disown [-a|PID...]"@),
        command("source"@, "source"@),
    ]
}

fn list_4() -> (r: Vec<Builtin>)
    ensures
        builtin_views(r@) == words_4(),
{
    let r: Vec<Builtin> = vec![
        new_command("eq", "eq/is"),
        new_unlisted("is", false),
        new_command("exists", "exists"),
        new_command("intersects", "intersects"),
        new_command("isatty", "isatty"),
        new_keyword("and", "and"),
        new_keyword("or", "or"),
        new_command("which", "which/type"),
        new_unlisted("type", false),
        new_command("eval", "eval"),
        new_command("pvar", "pvar set|get|list|delete"),
        new_command("dmark", "dmark add|list|jump"),
        new_command("jobs", "jobs"),
        new_command("wait", "wait"),
        new_command("disown", "disown [-a|PID...]"),
        new_command("source", "source"),
    ];
    assert(builtin_views(r@) =~= words_4());
    r
}

/// Part 5 of the words that the shell knows.
pub open spec fn words_5() -> Seq<BuiltinView> {
    seq![
        command("highlight"@, "highlight on|off"@),
        command("cls"@, "cls"@),
        command("from-json"@, "from-json"@),
        command("select"@, "select COL..."@),
        command("where"@, "where/filter COL OP VAL"@),
        unlisted("filter"@, false),
        command("to-json"@, "to-json"@),
        command("from-csv"@, "from-csv"@),
        command("to-csv"@, "to-csv"@),
        command("date-column"@, "date-column SOURCE DEST OP [ARG...]"@),
        command("pg-connect"@, "pg-connect [--host HOST] [--port PORT] [--database DATABASE] [--user USER]"@),
        command("elevate"@, "elevate [--wait] [--cwd DIRECTORY] PROGRAM [ARG...]"@),
        command("is-elevated"@, "is-elevated"@),
    ]
}

fn list_5() -> (r: Vec<Builtin>)
    ensures
        builtin_views(r@) == words_5(),
{
    let r: Vec<Builtin> = vec![
        new_command("highlight", "highlight on|off"),
        new_command("cls", "cls"),
        new_command("from-json", "from-json"),
        new_command("select", "select COL..."),
        new_command("where", "where/filter COL OP VAL"),
        new_unlisted("filter", false),
        new_command("to-json", "to-json"),
        new_command("from-csv", "from-csv"),
        new_command("to-csv", "to-csv"),
        new_command("date-column", "date-column SOURCE DEST OP [ARG...]"),
        new_command("pg-connect", "pg-connect [--host HOST] [--port PORT] [--database DATABASE] [--user USER]"),
        new_command("elevate", "elevate [--wait] [--cwd DIRECTORY] PROGRAM [ARG...]"),
        new_command("is-elevated", "is-elevated"),
    ];
    assert(builtin_views(r@) =~= words_5());
    r
}

/// The words that the shell knows, in the order of the command index.
pub open spec fn words() -> Seq<BuiltinView> {
    words_1() + words_2() + words_3() + words_4() + words_5()
}

fn append_all(out: &mut Vec<Builtin>, more: &Vec<Builtin>)
    ensures
        builtin_views(final(out)@) == builtin_views(old(out)@) + builtin_views(more@),
{
    let ghost first = builtin_views(out@);
    let ghost rest = builtin_views(more@);
    let mut i: usize = 0;
    assert(first + rest.take(0) =~= first);
    while i < more.len()
        invariant
            i <= more@.len(),
            rest == builtin_views(more@),
            builtin_views(out@) == first + rest.take(i as int),
        decreases more@.len() - i,
    {
        let ghost before = out@;
        out.push(more[i]);
        proof {
            assert(builtin_views(out@) =~= builtin_views(before).push(more@[i as int]@));
            assert(first + rest.take(i + 1) =~= (first + rest.take(i as int)).push(
                more@[i as int]@,
            ));
        }
        i = i + 1;
    }
    assert(rest.take(more@.len() as int) =~= rest);
}

/// The words that the shell knows, in the order of the command index.
pub fn builtins() -> (r: Vec<Builtin>)
    ensures
        builtin_views(r@) == words(),
{
    let mut out = list_1();
    let part = list_2();
    append_all(&mut out, &part);
    let part = list_3();
    append_all(&mut out, &part);
    let part = list_4();
    append_all(&mut out, &part);
    let part = list_5();
    append_all(&mut out, &part);
    out
}

/// The names of the words.
pub open spec fn word_names() -> Seq<Seq<char>> {
    Seq::new(words().len(), |i: int| words()[i].name)
}

/// The names of the words, for completion.
pub fn names() -> (r: Vec<String>)
    ensures
        text::texts(r@) == word_names(),
{
    let list = builtins();
    let ghost all = builtin_views(list@);
    let mut out: Vec<String> = Vec::new();
    let mut i: usize = 0;
    while i < list.len()
        invariant
            i <= list@.len(),
            all == builtin_views(list@),
            all == words(),
            text::texts(out@) == word_names().take(i as int),
        decreases list@.len() - i,
    {
        assert(all[i as int] == list@[i as int]@);
        let name = list[i].name.to_owned();
        proof {
            text::lemma_texts_push(out@, name);
            assert(word_names().take(i + 1) =~= word_names().take(i as int).push(name@));
        }
        out.push(name);
        i = i + 1;
    }
    assert(word_names().take(list@.len() as int) =~= word_names());
    out
}

/// Whether a word is one of the language.
pub open spec fn is_language_word(word: Seq<char>) -> bool {
    exists|i: int|
        0 <= i < words().len() && (#[trigger] words()[i]).is_keyword && words()[i].name == word
}

/// Tells whether a word is one of the language.
pub fn is_keyword(word: &str) -> (r: bool)
    ensures
        r == is_language_word(word@),
{
    let list = builtins();
    let ghost all = builtin_views(list@);
    let mut i: usize = 0;
    while i < list.len()
        invariant
            i <= list@.len(),
            all == builtin_views(list@),
            all == words(),
            forall|k: int|
                0 <= k < i ==> !((#[trigger] words()[k]).is_keyword && words()[k].name == word@),
        decreases list@.len() - i,
    {
        assert(all[i as int] == list@[i as int]@);
        assert(words()[i as int] == list@[i as int]@);
        if list[i].is_keyword && same(list[i].name, word) {
            return true;
        }
        i = i + 1;
    }
    false
}

/// How the first `n` words stand in the index.
pub open spec fn index_entries(list: Seq<BuiltinView>, n: int) -> Seq<Seq<char>>
    decreases n,
{
    if n <= 0 {
        Seq::empty()
    } else {
        let before = index_entries(list, n - 1);
        match list[n - 1].help_display {
            Some(s) => before.push(s),
            None => before,
        }
    }
}

/// The command index.
pub open spec fn index_text() -> Seq<char> {
    "Complete command index\n\n  "@ + text::joined(
        index_entries(words(), words().len() as int),
        "\n  "@,
    ) + "\n\nUse `help COMMAND` for usage, examples, and important safety notes."@
}

fn command_index() -> (r: String)
    ensures
        r@ == index_text(),
{
    let list = builtins();
    let ghost all = builtin_views(list@);
    let mut entries: Vec<String> = Vec::new();
    assert(text::texts(entries@) =~= Seq::<Seq<char>>::empty());
    let mut i: usize = 0;
    while i < list.len()
        invariant
            i <= list@.len(),
            all == builtin_views(list@),
            all == words(),
            text::texts(entries@) == index_entries(words(), i as int),
        decreases list@.len() - i,
    {
        assert(words()[i as int] == list@[i as int]@);
        match list[i].help_display {
            Some(s) => {
                let e = s.to_owned();
                proof {
                    text::lemma_texts_push(entries@, e);
                }
                entries.push(e);
            },
            None => {},
        }
        i = i + 1;
    }
    assert(words().len() == list@.len());
    let middle = join_texts(&entries, "\n  ");
    cat3(
        "Complete command index\n\n  ",
        middle.as_str(),
        "\n\nUse `help COMMAND` for usage, examples, and important safety notes.",
    )
}

// ---------------------------------------------------------------------------
// Help pages
// ---------------------------------------------------------------------------

/// A page of help.
#[verifier::ext_equal]
pub struct PageView {
    pub usage: Seq<char>,
    pub summary: Seq<char>,
    pub examples: Seq<Seq<char>>,
    pub notes: Seq<Seq<char>>,
}

/// Lines below a page, each indented.
pub open spec fn indented(lines: Seq<Seq<char>>, n: int) -> Seq<char>
    decreases n,
{
    if n <= 0 {
        Seq::empty()
    } else {
        indented(lines, n - 1) + "\n  "@ + lines[n - 1]
    }
}

/// A headed section of a page; nothing when it has no lines.
pub open spec fn section(head: Seq<char>, lines: Seq<Seq<char>>) -> Seq<char> {
    if lines.len() == 0 {
        Seq::empty()
    } else {
        head + indented(lines, lines.len() as int)
    }
}

/// The text of a page.
pub open spec fn page_text(p: PageView) -> Seq<char> {
    "Usage:  "@ + p.usage + "\n\n"@ + p.summary + section("\n\nExamples:"@, p.examples) + section(
        "\n\nNotes:"@,
        p.notes,
    )
}

/// What a list of strings holds.
pub open spec fn str_views(list: Seq<&str>) -> Seq<Seq<char>> {
    Seq::new(list.len(), |i: int| list[i]@)
}

fn write_section(head: &str, lines: &[&str]) -> (r: String)
    ensures
        r@ == section(head@, str_views(lines@)),
{
    if lines.len() == 0 {
        let none = String::new();
        assert(none@ =~= Seq::<char>::empty());
        return none;
    }
    let ghost all = str_views(lines@);
    let mut body = String::new();
    assert(body@ =~= Seq::<char>::empty());
    let mut i: usize = 0;
    while i < lines.len()
        invariant
            i <= lines@.len(),
            all == str_views(lines@),
            body@ == indented(all, i as int),
        decreases lines@.len() - i,
    {
        assert(all[i as int] == lines@[i as int]@);
        body = cat3(body.as_str(), "\n  ", lines[i]);
        i = i + 1;
    }
    cat2(head, body.as_str())
}

fn page(usage: &str, summary: &str, examples: &[&str], notes: &[&str]) -> (r: String)
    ensures
        r@ == page_text(
            PageView {
                usage: usage@,
                summary: summary@,
                examples: str_views(examples@),
                notes: str_views(notes@),
            },
        ),
{
    let head = cat4("Usage:  ", usage, "\n\n", summary);
    let first = write_section("\n\nExamples:", examples);
    let second = write_section("\n\nNotes:", notes);
    cat3(head.as_str(), first.as_str(), second.as_str())
}

/// The help on a topic, part 1.
pub open spec fn pages_1(topic: Seq<char>) -> Option<PageView> {
    if topic == "help"@ {
        Some(
            PageView {
                usage: "help [TOPIC]"@,
                summary: "Shows the categorized overview or focused help for a command or topic."@,
                examples: seq![
                "help"@,
                "help delete"@,
                "help syntax"@,
                "help all"@,
            ],
                notes: Seq::empty(),
            },
        )
    } else if topic == "syntax"@ {
        Some(
            PageView {
                usage: "COMMAND [ARG...]"@,
                summary: "Ion supports scalars ($name), arrays (@name), arithmetic ($((...))), process expansion ($(cmd) / @(cmd)), blocks, and shell pipelines."@,
                examples: seq![
                "let name = value"@,
                "let items = [one two three]"@,
                "echo \"$name: @items\""@,
                "find . --recurse | stat | to-json > listing.json"@,
                "command && next-command || recovery-command"@,
            ],
                notes: seq![
                "Pipes: | stdout, ^| stderr, &| combined."@,
                "Redirects: > overwrite, >> append, ^> stderr, &> combined."@,
                "Background: & tracked, &! disowned."@,
                "Environment namespace: ${env::NAME}."@,
            ],
            },
        )
    } else if topic == "tables"@ || topic == "table"@ {
        Some(
            PageView {
                usage: "SOURCE | TABLE-STAGE..."@,
                summary: "Tables are structured rows passed in-process between JSON/CSV adapters, filters, file metadata, and manifest-driven operations."@,
                examples: seq![
                "let manifest = find . --recurse | stat --hash sha256"@,
                "manifest | where size -gt 1000000 | select path size | to-csv"@,
                "manifest | copy backup"@,
                "for row in manifest; echo $field(row path); end"@,
            ],
                notes: seq![
                "$len(manifest) returns the row count."@,
                "$field(row column) reads a scalar from an exactly-one-row table."@,
                "copy and compress forward a consumed table; delete intentionally does not."@,
            ],
            },
        )
    } else if topic == "methods"@ || topic == "method"@ {
        Some(
            PageView {
                usage: "$method(value [ARG...])  |  @method(value [ARG...])"@,
                summary: "The $ form returns a scalar; the @ form returns an array. Methods include len, len_bytes, lines, chars, graphemes, split, split_at, join, find, replace, replacen, reverse, repeat, case conversion, path helpers, and escaping."@,
                examples: seq![
                "echo $len(\"hello\")"@,
                "let words = @split(\"one two three\" \" \")"@,
                "echo $join(@words \", \")"@,
                "echo @graphemes(\"👩‍💻\")"@,
            ],
                notes: seq![
                "String indexing, slicing, length, and reversal use Unicode grapheme boundaries."@,
            ],
            },
        )
    } else if topic == "history"@ {
        Some(
            PageView {
                usage: "let HISTORY_SETTING = VALUE"@,
                summary: "History is appended immediately and shared safely across ion-win windows. Each prompt refreshes Up-arrow recall."@,
                examples: seq![
                "echo $HISTFILE"@,
                "let HISTORY_TIMESTAMP = true"@,
                "let HISTORY_IGNORE = [duplicates whitespace no_such_command]"@,
                "let HISTFILE_ENABLED = false"@,
            ],
                notes: seq![
                "Supported ignore rules: all, whitespace, duplicates, no_such_command, regex:PATTERN."@,
                "HISTFILE changes take effect live."@,
            ],
            },
        )
    } else if topic == "exit"@ || topic == "quit"@ {
        Some(
            PageView {
                usage: "exit"@,
                summary: "Exits the current ion-win shell."@,
                examples: Seq::empty(),
                notes: seq![
                "`quit` is an alias."@,
            ],
            },
        )
    } else if topic == "let"@ {
        Some(
            PageView {
                usage: "let NAME[: TYPE] = VALUE"@,
                summary: "Defines or updates a scalar, array, arithmetic value, function-adjacent value, or captured table pipeline."@,
                examples: seq![
                "let name = Robert"@,
                "let nums = [1 2 3]"@,
                "let total: int = 4"@,
                "let manifest = find . --recurse | stat"@,
            ],
                notes: seq![
                "Types include str, bool, int, and float."@,
            ],
            },
        )
    } else if topic == "export"@ {
        Some(
            PageView {
                usage: "export NAME = VALUE"@,
                summary: "Sets an Ion scalar and exports it to child-process environments."@,
                examples: seq![
                "export MODE = production"@,
            ],
                notes: Seq::empty(),
            },
        )
    } else if topic == "drop"@ {
        Some(
            PageView {
                usage: "drop NAME..."@,
                summary: "Deletes scalar, array, table, or function variables from the active scope."@,
                examples: seq![
                "drop temporary manifest"@,
            ],
                notes: Seq::empty(),
            },
        )
    } else if topic == "read"@ {
        Some(
            PageView {
                usage: "read VARIABLE..."@,
                summary: "Reads one input line and assigns whitespace-separated fields to named variables."@,
                examples: seq![
                "read first last"@,
            ],
                notes: Seq::empty(),
            },
        )
    } else if topic == "echo"@ {
        Some(
            PageView {
                usage: "echo [-n] VALUE..."@,
                summary: "Prints expanded values. `-n` suppresses the trailing newline."@,
                examples: seq![
                "echo \"Hello $name\""@,
                "echo -n \"prompt> \""@,
            ],
                notes: Seq::empty(),
            },
        )
    } else if topic == "cd"@ {
        Some(
            PageView {
                usage: "cd [DIRECTORY]"@,
                summary: "Changes directory; with no argument, goes to %USERPROFILE%."@,
                examples: seq![
                "cd ~/Documents"@,
                ".."@,
                "examples/"@,
            ],
                notes: seq![
                "Path-looking bare commands perform an implicit cd."@,
            ],
            },
        )
    } else {
        None
    }
}

#[verifier::spinoff_prover]
fn write_page_1(topic: &str) -> (r: Option<String>)
    ensures
        match r {
            Some(s) => pages_1(topic@) is Some && s@ == page_text(pages_1(topic@)->0),
            None => pages_1(topic@) is None,
        },
{
    if same(topic, "help") {
        let examples: [&str; 4] = [
            "help",
            "help delete",
            "help syntax",
            "help all",
        ];
        let notes: [&str; 0] = [];
        assert(str_views(examples@) =~= pages_1(topic@)->0.examples);
        assert(str_views(notes@) =~= pages_1(topic@)->0.notes);
        return Some(
            page(
                "help [TOPIC]",
                "Shows the categorized overview or focused help for a command or topic.",
                &examples,
                &notes,
            ),
        );
    }
    if same(topic, "syntax") {
        let examples: [&str; 5] = [
            "let name = value",
            "let items = [one two three]",
            "echo \"$name: @items\"",
            "find . --recurse | stat | to-json > listing.json",
            "command && next-command || recovery-command",
        ];
        let notes: [&str; 4] = [
            "Pipes: | stdout, ^| stderr, &| combined.",
            "Redirects: > overwrite, >> append, ^> stderr, &> combined.",
            "Background: & tracked, &! disowned.",
            "Environment namespace: ${env::NAME}.",
        ];
        assert(str_views(examples@) =~= pages_1(topic@)->0.examples);
        assert(str_views(notes@) =~= pages_1(topic@)->0.notes);
        return Some(
            page(
                "COMMAND [ARG...]",
                "Ion supports scalars ($name), arrays (@name), arithmetic ($((...))), process expansion ($(cmd) / @(cmd)), blocks, and shell pipelines.",
                &examples,
                &notes,
            ),
        );
    }
    if same(topic, "tables") || same(topic, "table") {
        let examples: [&str; 4] = [
            "let manifest = find . --recurse | stat --hash sha256",
            "manifest | where size -gt 1000000 | select path size | to-csv",
            "manifest | copy backup",
            "for row in manifest; echo $field(row path); end",
        ];
        let notes: [&str; 3] = [
            "$len(manifest) returns the row count.",
            "$field(row column) reads a scalar from an exactly-one-row table.",
            "copy and compress forward a consumed table; delete intentionally does not.",
        ];
        assert(str_views(examples@) =~= pages_1(topic@)->0.examples);
        assert(str_views(notes@) =~= pages_1(topic@)->0.notes);
        return Some(
            page(
                "SOURCE | TABLE-STAGE...",
                "Tables are structured rows passed in-process between JSON/CSV adapters, filters, file metadata, and manifest-driven operations.",
                &examples,
                &notes,
            ),
        );
    }
    if same(topic, "methods") || same(topic, "method") {
        let examples: [&str; 4] = [
            "echo $len(\"hello\")",
            "let words = @split(\"one two three\" \" \")",
            "echo $join(@words \", \")",
            "echo @graphemes(\"👩‍💻\")",
        ];
        let notes: [&str; 1] = [
            "String indexing, slicing, length, and reversal use Unicode grapheme boundaries.",
        ];
        assert(str_views(examples@) =~= pages_1(topic@)->0.examples);
        assert(str_views(notes@) =~= pages_1(topic@)->0.notes);
        return Some(
            page(
                "$method(value [ARG...])  |  @method(value [ARG...])",
                "The $ form returns a scalar; the @ form returns an array. Methods include len, len_bytes, lines, chars, graphemes, split, split_at, join, find, replace, replacen, reverse, repeat, case conversion, path helpers, and escaping.",
                &examples,
                &notes,
            ),
        );
    }
    if same(topic, "history") {
        let examples: [&str; 4] = [
            "echo $HISTFILE",
            "let HISTORY_TIMESTAMP = true",
            "let HISTORY_IGNORE = [duplicates whitespace no_such_command]",
            "let HISTFILE_ENABLED = false",
        ];
        let notes: [&str; 2] = [
            "Supported ignore rules: all, whitespace, duplicates, no_such_command, regex:PATTERN.",
            "HISTFILE changes take effect live.",
        ];
        assert(str_views(examples@) =~= pages_1(topic@)->0.examples);
        assert(str_views(notes@) =~= pages_1(topic@)->0.notes);
        return Some(
            page(
                "let HISTORY_SETTING = VALUE",
                "History is appended immediately and shared safely across ion-win windows. Each prompt refreshes Up-arrow recall.",
                &examples,
                &notes,
            ),
        );
    }
    if same(topic, "exit") || same(topic, "quit") {
        let examples: [&str; 0] = [];
        let notes: [&str; 1] = [
            "`quit` is an alias.",
        ];
        assert(str_views(examples@) =~= pages_1(topic@)->0.examples);
        assert(str_views(notes@) =~= pages_1(topic@)->0.notes);
        return Some(
            page(
                "exit",
                "Exits the current ion-win shell.",
                &examples,
                &notes,
            ),
        );
    }
    if same(topic, "let") {
        let examples: [&str; 4] = [
            "let name = Robert",
            "let nums = [1 2 3]",
            "let total: int = 4",
            "let manifest = find . --recurse | stat",
        ];
        let notes: [&str; 1] = [
            "Types include str, bool, int, and float.",
        ];
        assert(str_views(examples@) =~= pages_1(topic@)->0.examples);
        assert(str_views(notes@) =~= pages_1(topic@)->0.notes);
        return Some(
            page(
                "let NAME[: TYPE] = VALUE",
                "Defines or updates a scalar, array, arithmetic value, function-adjacent value, or captured table pipeline.",
                &examples,
                &notes,
            ),
        );
    }
    if same(topic, "export") {
        let examples: [&str; 1] = [
            "export MODE = production",
        ];
        let notes: [&str; 0] = [];
        assert(str_views(examples@) =~= pages_1(topic@)->0.examples);
        assert(str_views(notes@) =~= pages_1(topic@)->0.notes);
        return Some(
            page(
                "export NAME = VALUE",
                "Sets an Ion scalar and exports it to child-process environments.",
                &examples,
                &notes,
            ),
        );
    }
    if same(topic, "drop") {
        let examples: [&str; 1] = [
            "drop temporary manifest",
        ];
        let notes: [&str; 0] = [];
        assert(str_views(examples@) =~= pages_1(topic@)->0.examples);
        assert(str_views(notes@) =~= pages_1(topic@)->0.notes);
        return Some(
            page(
                "drop NAME...",
                "Deletes scalar, array, table, or function variables from the active scope.",
                &examples,
                &notes,
            ),
        );
    }
    if same(topic, "read") {
        let examples: [&str; 1] = [
            "read first last",
        ];
        let notes: [&str; 0] = [];
        assert(str_views(examples@) =~= pages_1(topic@)->0.examples);
        assert(str_views(notes@) =~= pages_1(topic@)->0.notes);
        return Some(
            page(
                "read VARIABLE...",
                "Reads one input line and assigns whitespace-separated fields to named variables.",
                &examples,
                &notes,
            ),
        );
    }
    if same(topic, "echo") {
        let examples: [&str; 2] = [
            "echo \"Hello $name\"",
            "echo -n \"prompt> \"",
        ];
        let notes: [&str; 0] = [];
        assert(str_views(examples@) =~= pages_1(topic@)->0.examples);
        assert(str_views(notes@) =~= pages_1(topic@)->0.notes);
        return Some(
            page(
                "echo [-n] VALUE...",
                "Prints expanded values. `-n` suppresses the trailing newline.",
                &examples,
                &notes,
            ),
        );
    }
    if same(topic, "cd") {
        let examples: [&str; 3] = [
            "cd ~/Documents",
            "..",
            "examples/",
        ];
        let notes: [&str; 1] = [
            "Path-looking bare commands perform an implicit cd.",
        ];
        assert(str_views(examples@) =~= pages_1(topic@)->0.examples);
        assert(str_views(notes@) =~= pages_1(topic@)->0.notes);
        return Some(
            page(
                "cd [DIRECTORY]",
                "Changes directory; with no argument, goes to %USERPROFILE%.",
                &examples,
                &notes,
            ),
        );
    }
    None
}

/// The help on a topic, part 2.
pub open spec fn pages_2(topic: Seq<char>) -> Option<PageView> {
    if topic == "pushd"@ {
        Some(
            PageView {
                usage: "pushd DIRECTORY"@,
                summary: "Saves the current directory on an in-memory stack, then changes to DIRECTORY."@,
                examples: seq![
                "pushd build"@,
                "popd"@,
            ],
                notes: seq![
                "A failed directory change does not alter the stack."@,
            ],
            },
        )
    } else if topic == "popd"@ {
        Some(
            PageView {
                usage: "popd"@,
                summary: "Returns to the most recently saved pushd directory."@,
                examples: Seq::empty(),
                notes: seq![
                "Fails without changing directory when the stack is empty."@,
            ],
            },
        )
    } else if topic == "pwd"@ {
        Some(
            PageView {
                usage: "pwd"@,
                summary: "Prints the current directory."@,
                examples: Seq::empty(),
                notes: Seq::empty(),
            },
        )
    } else if topic == "dirs"@ {
        Some(
            PageView {
                usage: "dirs"@,
                summary: "Lists directory entries in the current directory."@,
                examples: Seq::empty(),
                notes: Seq::empty(),
            },
        )
    } else if topic == "folders"@ {
        Some(
            PageView {
                usage: "folders [--all] [--full] [PATH]"@,
                summary: "Lists directories only."@,
                examples: seq![
                "folders --all ."@,
            ],
                notes: Seq::empty(),
            },
        )
    } else if topic == "files"@ {
        Some(
            PageView {
                usage: "files [--all] [--full] [PATH]"@,
                summary: "Lists files only."@,
                examples: seq![
                "files --full examples"@,
            ],
                notes: Seq::empty(),
            },
        )
    } else if topic == "find"@ {
        Some(
            PageView {
                usage: "find [--all] [--recurse] [PATH]"@,
                summary: "Lists files for inspection or piping into stat."@,
                examples: seq![
                "find . --recurse"@,
                "find . --all --recurse | stat"@,
            ],
                notes: seq![
                "Directories are not emitted as rows."@,
            ],
            },
        )
    } else if topic == "cat"@ {
        Some(
            PageView {
                usage: "cat FILE..."@,
                summary: "Writes file contents unchanged, in argument order."@,
                examples: seq![
                "cat listing.json | from-json"@,
            ],
                notes: Seq::empty(),
            },
        )
    } else if topic == "stat"@ {
        Some(
            PageView {
                usage: "stat FILE... [--hash sha256]"@,
                summary: "Builds a table with path, size, modified time, and is_dir; optionally hashes files concurrently."@,
                examples: seq![
                "find . --recurse | stat --hash sha256 | to-json"@,
            ],
                notes: Seq::empty(),
            },
        )
    } else if topic == "copy"@ || topic == "cp"@ {
        Some(
            PageView {
                usage: "copy [--force] SRC... DEST\n        TABLE | copy [--force] DEST"@,
                summary: "Copies explicit files or every path in a table. Table paths retain their relative layout."@,
                examples: seq![
                "copy report.txt backup"@,
                "manifest | copy backup"@,
            ],
                notes: seq![
                "Existing destinations are skipped unless --force is supplied."@,
                "`cp` is an alias."@,
            ],
            },
        )
    } else if topic == "mkdir"@ || topic == "md"@ {
        Some(
            PageView {
                usage: "mkdir DIR..."@,
                summary: "Creates one or more directories, including missing parent directories."@,
                examples: seq![
                "mkdir reports/2026/july"@,
                "mkdir cache output"@,
            ],
                notes: seq![
                "Existing directories are counted and left unchanged."@,
                "`md` is an alias."@,
            ],
            },
        )
    } else if topic == "move"@ || topic == "mv"@ {
        Some(
            PageView {
                usage: "move [--force] SRC... DEST\n        TABLE | move [--force] DEST"@,
                summary: "Moves files or folders. A table supplies sources from its `path` column and preserves relative layout under DEST."@,
                examples: seq![
                "move draft.txt final.txt"@,
                "move one.txt two.txt archive"@,
                "manifest | move archive"@,
            ],
                notes: seq![
                "Existing destinations are skipped unless --force is supplied."@,
                "Existing directories are never replaced."@,
                "`mv` is an alias."@,
            ],
            },
        )
    } else {
        None
    }
}

#[verifier::spinoff_prover]
fn write_page_2(topic: &str) -> (r: Option<String>)
    ensures
        match r {
            Some(s) => pages_2(topic@) is Some && s@ == page_text(pages_2(topic@)->0),
            None => pages_2(topic@) is None,
        },
{
    if same(topic, "pushd") {
        let examples: [&str; 2] = [
            "pushd build",
            "popd",
        ];
        let notes: [&str; 1] = [
            "A failed directory change does not alter the stack.",
        ];
        assert(str_views(examples@) =~= pages_2(topic@)->0.examples);
        assert(str_views(notes@) =~= pages_2(topic@)->0.notes);
        return Some(
            page(
                "pushd DIRECTORY",
                "Saves the current directory on an in-memory stack, then changes to DIRECTORY.",
                &examples,
                &notes,
            ),
        );
    }
    if same(topic, "popd") {
        let examples: [&str; 0] = [];
        let notes: [&str; 1] = [
            "Fails without changing directory when the stack is empty.",
        ];
        assert(str_views(examples@) =~= pages_2(topic@)->0.examples);
        assert(str_views(notes@) =~= pages_2(topic@)->0.notes);
        return Some(
            page(
                "popd",
                "Returns to the most recently saved pushd directory.",
                &examples,
                &notes,
            ),
        );
    }
    if same(topic, "pwd") {
        let examples: [&str; 0] = [];
        let notes: [&str; 0] = [];
        assert(str_views(examples@) =~= pages_2(topic@)->0.examples);
        assert(str_views(notes@) =~= pages_2(topic@)->0.notes);
        return Some(
            page(
                "pwd",
                "Prints the current directory.",
                &examples,
                &notes,
            ),
        );
    }
    if same(topic, "dirs") {
        let examples: [&str; 0] = [];
        let notes: [&str; 0] = [];
        assert(str_views(examples@) =~= pages_2(topic@)->0.examples);
        assert(str_views(notes@) =~= pages_2(topic@)->0.notes);
        return Some(
            page(
                "dirs",
                "Lists directory entries in the current directory.",
                &examples,
                &notes,
            ),
        );
    }
    if same(topic, "folders") {
        let examples: [&str; 1] = [
            "folders --all .",
        ];
        let notes: [&str; 0] = [];
        assert(str_views(examples@) =~= pages_2(topic@)->0.examples);
        assert(str_views(notes@) =~= pages_2(topic@)->0.notes);
        return Some(
            page(
                "folders [--all] [--full] [PATH]",
                "Lists directories only.",
                &examples,
                &notes,
            ),
        );
    }
    if same(topic, "files") {
        let examples: [&str; 1] = [
            "files --full examples",
        ];
        let notes: [&str; 0] = [];
        assert(str_views(examples@) =~= pages_2(topic@)->0.examples);
        assert(str_views(notes@) =~= pages_2(topic@)->0.notes);
        return Some(
            page(
                "files [--all] [--full] [PATH]",
                "Lists files only.",
                &examples,
                &notes,
            ),
        );
    }
    if same(topic, "find") {
        let examples: [&str; 2] = [
            "find . --recurse",
            "find . --all --recurse | stat",
        ];
        let notes: [&str; 1] = [
            "Directories are not emitted as rows.",
        ];
        assert(str_views(examples@) =~= pages_2(topic@)->0.examples);
        assert(str_views(notes@) =~= pages_2(topic@)->0.notes);
        return Some(
            page(
                "find [--all] [--recurse] [PATH]",
                "Lists files for inspection or piping into stat.",
                &examples,
                &notes,
            ),
        );
    }
    if same(topic, "cat") {
        let examples: [&str; 1] = [
            "cat listing.json | from-json",
        ];
        let notes: [&str; 0] = [];
        assert(str_views(examples@) =~= pages_2(topic@)->0.examples);
        assert(str_views(notes@) =~= pages_2(topic@)->0.notes);
        return Some(
            page(
                "cat FILE...",
                "Writes file contents unchanged, in argument order.",
                &examples,
                &notes,
            ),
        );
    }
    if same(topic, "stat") {
        let examples: [&str; 1] = [
            "find . --recurse | stat --hash sha256 | to-json",
        ];
        let notes: [&str; 0] = [];
        assert(str_views(examples@) =~= pages_2(topic@)->0.examples);
        assert(str_views(notes@) =~= pages_2(topic@)->0.notes);
        return Some(
            page(
                "stat FILE... [--hash sha256]",
                "Builds a table with path, size, modified time, and is_dir; optionally hashes files concurrently.",
                &examples,
                &notes,
            ),
        );
    }
    if same(topic, "copy") || same(topic, "cp") {
        let examples: [&str; 2] = [
            "copy report.txt backup",
            "manifest | copy backup",
        ];
        let notes: [&str; 2] = [
            "Existing destinations are skipped unless --force is supplied.",
            "`cp` is an alias.",
        ];
        assert(str_views(examples@) =~= pages_2(topic@)->0.examples);
        assert(str_views(notes@) =~= pages_2(topic@)->0.notes);
        return Some(
            page(
                "copy [--force] SRC... DEST\n        TABLE | copy [--force] DEST",
                "Copies explicit files or every path in a table. Table paths retain their relative layout.",
                &examples,
                &notes,
            ),
        );
    }
    if same(topic, "mkdir") || same(topic, "md") {
        let examples: [&str; 2] = [
            "mkdir reports/2026/july",
            "mkdir cache output",
        ];
        let notes: [&str; 2] = [
            "Existing directories are counted and left unchanged.",
            "`md` is an alias.",
        ];
        assert(str_views(examples@) =~= pages_2(topic@)->0.examples);
        assert(str_views(notes@) =~= pages_2(topic@)->0.notes);
        return Some(
            page(
                "mkdir DIR...",
                "Creates one or more directories, including missing parent directories.",
                &examples,
                &notes,
            ),
        );
    }
    if same(topic, "move") || same(topic, "mv") {
        let examples: [&str; 3] = [
            "move draft.txt final.txt",
            "move one.txt two.txt archive",
            "manifest | move archive",
        ];
        let notes: [&str; 3] = [
            "Existing destinations are skipped unless --force is supplied.",
            "Existing directories are never replaced.",
            "`mv` is an alias.",
        ];
        assert(str_views(examples@) =~= pages_2(topic@)->0.examples);
        assert(str_views(notes@) =~= pages_2(topic@)->0.notes);
        return Some(
            page(
                "move [--force] SRC... DEST\n        TABLE | move [--force] DEST",
                "Moves files or folders. A table supplies sources from its `path` column and preserves relative layout under DEST.",
                &examples,
                &notes,
            ),
        );
    }
    None
}

/// The help on a topic, part 3.
pub open spec fn pages_3(topic: Seq<char>) -> Option<PageView> {
    if topic == "rename"@ || topic == "ren"@ {
        Some(
            PageView {
                usage: "rename [--force] SOURCE NEW_NAME"@,
                summary: "Renames one file or folder in place. Use move when changing its parent directory."@,
                examples: seq![
                "rename draft.txt final.txt"@,
                "rename old-folder new-folder"@,
            ],
                notes: seq![
                "NEW_NAME must be a name, not a path."@,
                "`ren` is an alias."@,
            ],
            },
        )
    } else if topic == "compress"@ {
        Some(
            PageView {
                usage: "compress [--force] SRC... DEST.zip\n        TABLE | compress [--force] DEST.zip"@,
                summary: "Creates a standard ZIP from explicit files or table paths."@,
                examples: seq![
                "compress report.txt report.zip"@,
                "manifest | compress snapshot.zip"@,
            ],
                notes: seq![
                "Existing archives are skipped unless --force is supplied."@,
            ],
            },
        )
    } else if topic == "delete"@ {
        Some(
            PageView {
                usage: "delete [--recurse] PATH...\n        TABLE | delete [--recurse]"@,
                summary: "Moves files to the Windows Recycle Bin by default. Tables supply paths from their `path` column."@,
                examples: seq![
                "delete old.txt"@,
                "manifest | delete"@,
                "delete --recurse old-folder"@,
            ],
                notes: seq![
                "Permanent deletion requires both --permanent and --force."@,
                "Directories require --recurse, including Recycle Bin deletion."@,
                "Filesystem roots, the current directory, and its ancestors are refused."@,
            ],
            },
        )
    } else if topic == "if"@ || topic == "else"@ {
        Some(
            PageView {
                usage: "if CONDITION; ...; [else if CONDITION; ...;] [else; ...;] end"@,
                summary: "Runs the first matching branch."@,
                examples: seq![
                "if test $count -gt 0; echo positive; else; echo empty; end"@,
            ],
                notes: Seq::empty(),
            },
        )
    } else if topic == "while"@ {
        Some(
            PageView {
                usage: "while CONDITION; ...; end"@,
                summary: "Repeats a block while its condition succeeds."@,
                examples: seq![
                "while test $n -lt 10; let n += 1; end"@,
            ],
                notes: Seq::empty(),
            },
        )
    } else if topic == "for"@ || topic == "in"@ {
        Some(
            PageView {
                usage: "for NAME in VALUES...; ...; end"@,
                summary: "Iterates arrays, expanded values, or rows of a table."@,
                examples: seq![
                "for item in @items; echo $item; end"@,
                "for row in manifest; echo $field(row path); end"@,
            ],
                notes: Seq::empty(),
            },
        )
    } else if topic == "fn"@ || topic == "end"@ {
        Some(
            PageView {
                usage: "fn NAME [PARAM[: TYPE]...]; ...; end"@,
                summary: "Defines a function. Bare `fn` lists definitions."@,
                examples: seq![
                "fn greet name: str; echo \"Hello $name\"; end"@,
            ],
                notes: Seq::empty(),
            },
        )
    } else if topic == "match"@ || topic == "case"@ {
        Some(
            PageView {
                usage: "match VALUE; case PATTERN [if CONDITION]; ...; case _; ...; end"@,
                summary: "Selects a branch by scalar/array pattern intersection, with optional guards."@,
                examples: seq![
                "match $name; case Robert; echo owner; case _; echo guest; end"@,
            ],
                notes: Seq::empty(),
            },
        )
    } else if topic == "break"@ || topic == "continue"@ {
        Some(
            PageView {
                usage: topic,
                summary: "Controls the nearest enclosing while/for loop."@,
                examples: Seq::empty(),
                notes: seq![
                "`break` exits the loop; `continue` starts its next iteration."@,
            ],
            },
        )
    } else if topic == "test"@ {
        Some(
            PageView {
                usage: "test EXPR"@,
                summary: "Evaluates truthiness, string/numeric comparisons, or file predicates."@,
                examples: seq![
                "test -n \"$name\""@,
                "test 2 -eq 2"@,
                "test $n -ge 10"@,
                "test -f report.txt"@,
            ],
                notes: seq![
                "String: = == !=. Numeric: -eq -ne -lt -le -gt -ge. Files: -e -f -d."@,
            ],
            },
        )
    } else if topic == "matches"@ {
        Some(
            PageView {
                usage: "matches VALUE REGEX"@,
                summary: "Succeeds when VALUE matches the regular expression."@,
                examples: seq![
                "matches $name \"^[A-Z]\""@,
            ],
                notes: Seq::empty(),
            },
        )
    } else if topic == "not"@ {
        Some(
            PageView {
                usage: "not CONDITION"@,
                summary: "Inverts a condition's result."@,
                examples: seq![
                "if not test -e file.txt; echo missing; end"@,
            ],
                notes: Seq::empty(),
            },
        )
    } else {
        None
    }
}

#[verifier::spinoff_prover]
fn write_page_3(topic: &str) -> (r: Option<String>)
    ensures
        match r {
            Some(s) => pages_3(topic@) is Some && s@ == page_text(pages_3(topic@)->0),
            None => pages_3(topic@) is None,
        },
{
    if same(topic, "rename") || same(topic, "ren") {
        let examples: [&str; 2] = [
            "rename draft.txt final.txt",
            "rename old-folder new-folder",
        ];
        let notes: [&str; 2] = [
            "NEW_NAME must be a name, not a path.",
            "`ren` is an alias.",
        ];
        assert(str_views(examples@) =~= pages_3(topic@)->0.examples);
        assert(str_views(notes@) =~= pages_3(topic@)->0.notes);
        return Some(
            page(
                "rename [--force] SOURCE NEW_NAME",
                "Renames one file or folder in place. Use move when changing its parent directory.",
                &examples,
                &notes,
            ),
        );
    }
    if same(topic, "compress") {
        let examples: [&str; 2] = [
            "compress report.txt report.zip",
            "manifest | compress snapshot.zip",
        ];
        let notes: [&str; 1] = [
            "Existing archives are skipped unless --force is supplied.",
        ];
        assert(str_views(examples@) =~= pages_3(topic@)->0.examples);
        assert(str_views(notes@) =~= pages_3(topic@)->0.notes);
        return Some(
            page(
                "compress [--force] SRC... DEST.zip\n        TABLE | compress [--force] DEST.zip",
                "Creates a standard ZIP from explicit files or table paths.",
                &examples,
                &notes,
            ),
        );
    }
    if same(topic, "delete") {
        let examples: [&str; 3] = [
            "delete old.txt",
            "manifest | delete",
            "delete --recurse old-folder",
        ];
        let notes: [&str; 3] = [
            "Permanent deletion requires both --permanent and --force.",
            "Directories require --recurse, including Recycle Bin deletion.",
            "Filesystem roots, the current directory, and its ancestors are refused.",
        ];
        assert(str_views(examples@) =~= pages_3(topic@)->0.examples);
        assert(str_views(notes@) =~= pages_3(topic@)->0.notes);
        return Some(
            page(
                "delete [--recurse] PATH...\n        TABLE | delete [--recurse]",
                "Moves files to the Windows Recycle Bin by default. Tables supply paths from their `path` column.",
                &examples,
                &notes,
            ),
        );
    }
    if same(topic, "if") || same(topic, "else") {
        let examples: [&str; 1] = [
            "if test $count -gt 0; echo positive; else; echo empty; end",
        ];
        let notes: [&str; 0] = [];
        assert(str_views(examples@) =~= pages_3(topic@)->0.examples);
        assert(str_views(notes@) =~= pages_3(topic@)->0.notes);
        return Some(
            page(
                "if CONDITION; ...; [else if CONDITION; ...;] [else; ...;] end",
                "Runs the first matching branch.",
                &examples,
                &notes,
            ),
        );
    }
    if same(topic, "while") {
        let examples: [&str; 1] = [
            "while test $n -lt 10; let n += 1; end",
        ];
        let notes: [&str; 0] = [];
        assert(str_views(examples@) =~= pages_3(topic@)->0.examples);
        assert(str_views(notes@) =~= pages_3(topic@)->0.notes);
        return Some(
            page(
                "while CONDITION; ...; end",
                "Repeats a block while its condition succeeds.",
                &examples,
                &notes,
            ),
        );
    }
    if same(topic, "for") || same(topic, "in") {
        let examples: [&str; 2] = [
            "for item in @items; echo $item; end",
            "for row in manifest; echo $field(row path); end",
        ];
        let notes: [&str; 0] = [];
        assert(str_views(examples@) =~= pages_3(topic@)->0.examples);
        assert(str_views(notes@) =~= pages_3(topic@)->0.notes);
        return Some(
            page(
                "for NAME in VALUES...; ...; end",
                "Iterates arrays, expanded values, or rows of a table.",
                &examples,
                &notes,
            ),
        );
    }
    if same(topic, "fn") || same(topic, "end") {
        let examples: [&str; 1] = [
            "fn greet name: str; echo \"Hello $name\"; end",
        ];
        let notes: [&str; 0] = [];
        assert(str_views(examples@) =~= pages_3(topic@)->0.examples);
        assert(str_views(notes@) =~= pages_3(topic@)->0.notes);
        return Some(
            page(
                "fn NAME [PARAM[: TYPE]...]; ...; end",
                "Defines a function. Bare `fn` lists definitions.",
                &examples,
                &notes,
            ),
        );
    }
    if same(topic, "match") || same(topic, "case") {
        let examples: [&str; 1] = [
            "match $name; case Robert; echo owner; case _; echo guest; end",
        ];
        let notes: [&str; 0] = [];
        assert(str_views(examples@) =~= pages_3(topic@)->0.examples);
        assert(str_views(notes@) =~= pages_3(topic@)->0.notes);
        return Some(
            page(
                "match VALUE; case PATTERN [if CONDITION]; ...; case _; ...; end",
                "Selects a branch by scalar/array pattern intersection, with optional guards.",
                &examples,
                &notes,
            ),
        );
    }
    if same(topic, "break") || same(topic, "continue") {
        let examples: [&str; 0] = [];
        let notes: [&str; 1] = [
            "`break` exits the loop; `continue` starts its next iteration.",
        ];
        assert(str_views(examples@) =~= pages_3(topic@)->0.examples);
        assert(str_views(notes@) =~= pages_3(topic@)->0.notes);
        return Some(
            page(
                topic,
                "Controls the nearest enclosing while/for loop.",
                &examples,
                &notes,
            ),
        );
    }
    if same(topic, "test") {
        let examples: [&str; 4] = [
            "test -n \"$name\"",
            "test 2 -eq 2",
            "test $n -ge 10",
            "test -f report.txt",
        ];
        let notes: [&str; 1] = [
            "String: = == !=. Numeric: -eq -ne -lt -le -gt -ge. Files: -e -f -d.",
        ];
        assert(str_views(examples@) =~= pages_3(topic@)->0.examples);
        assert(str_views(notes@) =~= pages_3(topic@)->0.notes);
        return Some(
            page(
                "test EXPR",
                "Evaluates truthiness, string/numeric comparisons, or file predicates.",
                &examples,
                &notes,
            ),
        );
    }
    if same(topic, "matches") {
        let examples: [&str; 1] = [
            "matches $name \"^[A-Z]\"",
        ];
        let notes: [&str; 0] = [];
        assert(str_views(examples@) =~= pages_3(topic@)->0.examples);
        assert(str_views(notes@) =~= pages_3(topic@)->0.notes);
        return Some(
            page(
                "matches VALUE REGEX",
                "Succeeds when VALUE matches the regular expression.",
                &examples,
                &notes,
            ),
        );
    }
    if same(topic, "not") {
        let examples: [&str; 1] = [
            "if not test -e file.txt; echo missing; end",
        ];
        let notes: [&str; 0] = [];
        assert(str_views(examples@) =~= pages_3(topic@)->0.examples);
        assert(str_views(notes@) =~= pages_3(topic@)->0.notes);
        return Some(
            page(
                "not CONDITION",
                "Inverts a condition's result.",
                &examples,
                &notes,
            ),
        );
    }
    None
}

/// The help on a topic, part 4.
pub open spec fn pages_4(topic: Seq<char>) -> Option<PageView> {
    if topic == "true"@ || topic == "false"@ {
        Some(
            PageView {
                usage: topic,
                summary: "Returns a fixed successful (`true`) or failed (`false`) status."@,
                examples: Seq::empty(),
                notes: Seq::empty(),
            },
        )
    } else if topic == "bool"@ {
        Some(
            PageView {
                usage: "bool VALUE"@,
                summary: "Succeeds only for `1` or `true`."@,
                examples: seq![
                "bool $enabled"@,
            ],
                notes: Seq::empty(),
            },
        )
    } else if topic == "contains"@ {
        Some(
            PageView {
                usage: "contains VALUE TEST..."@,
                summary: "Succeeds when VALUE contains any TEST."@,
                examples: seq![
                "contains \"hello world\" world"@,
            ],
                notes: Seq::empty(),
            },
        )
    } else if topic == "starts-with"@ {
        Some(
            PageView {
                usage: "starts-with VALUE TEST..."@,
                summary: "Succeeds when VALUE starts with any TEST."@,
                examples: seq![
                "starts-with report.csv report"@,
            ],
                notes: Seq::empty(),
            },
        )
    } else if topic == "ends-with"@ {
        Some(
            PageView {
                usage: "ends-with VALUE TEST..."@,
                summary: "Succeeds when VALUE ends with any TEST."@,
                examples: seq![
                "ends-with report.csv .csv"@,
            ],
                notes: Seq::empty(),
            },
        )
    } else if topic == "eq"@ || topic == "is"@ {
        Some(
            PageView {
                usage: "eq [not] VALUE VALUE"@,
                summary: "Compares two values for equality (or inequality with `not`)."@,
                examples: seq![
                "eq $mode production"@,
                "is not $left $right"@,
            ],
                notes: seq![
                "`is` is an alias."@,
            ],
            },
        )
    } else if topic == "exists"@ {
        Some(
            PageView {
                usage: "exists [-s|-a|--fn] NAME  |  exists PATH"@,
                summary: "Checks for a scalar, array, function, or filesystem path."@,
                examples: seq![
                "exists -s name"@,
                "exists --fn PROMPT"@,
                "exists report.txt"@,
            ],
                notes: Seq::empty(),
            },
        )
    } else if topic == "intersects"@ {
        Some(
            PageView {
                usage: "intersects ARRAY1 ARRAY2"@,
                summary: "Succeeds when two named arrays share at least one value."@,
                examples: seq![
                "intersects allowed selected"@,
            ],
                notes: Seq::empty(),
            },
        )
    } else if topic == "isatty"@ {
        Some(
            PageView {
                usage: "isatty [FD]"@,
                summary: "Checks whether stdin (0), stdout (1), or stderr (2) is a terminal. With no argument, succeeds."@,
                examples: seq![
                "isatty 1"@,
            ],
                notes: Seq::empty(),
            },
        )
    } else if topic == "and"@ || topic == "or"@ {
        Some(
            PageView {
                usage: topic,
                summary: "`and COMMAND` runs after success; `or COMMAND` runs after failure."@,
                examples: seq![
                "test -f file && echo found"@,
                "test -f file || echo missing"@,
            ],
                notes: seq![
                "Symbol forms are && and ||."@,
            ],
            },
        )
    } else if topic == "which"@ || topic == "type"@ {
        Some(
            PageView {
                usage: "which PROGRAM..."@,
                summary: "Reports whether each name is a builtin, function, or PATH executable."@,
                examples: seq![
                "which ion-win git copy"@,
            ],
                notes: seq![
                "`type` is an alias."@,
            ],
            },
        )
    } else if topic == "eval"@ {
        Some(
            PageView {
                usage: "eval WORD..."@,
                summary: "Joins arguments and evaluates them as a new Ion command."@,
                examples: seq![
                "eval \"echo $name\""@,
            ],
                notes: Seq::empty(),
            },
        )
    } else {
        None
    }
}

#[verifier::spinoff_prover]
fn write_page_4(topic: &str) -> (r: Option<String>)
    ensures
        match r {
            Some(s) => pages_4(topic@) is Some && s@ == page_text(pages_4(topic@)->0),
            None => pages_4(topic@) is None,
        },
{
    if same(topic, "true") || same(topic, "false") {
        let examples: [&str; 0] = [];
        let notes: [&str; 0] = [];
        assert(str_views(examples@) =~= pages_4(topic@)->0.examples);
        assert(str_views(notes@) =~= pages_4(topic@)->0.notes);
        return Some(
            page(
                topic,
                "Returns a fixed successful (`true`) or failed (`false`) status.",
                &examples,
                &notes,
            ),
        );
    }
    if same(topic, "bool") {
        let examples: [&str; 1] = [
            "bool $enabled",
        ];
        let notes: [&str; 0] = [];
        assert(str_views(examples@) =~= pages_4(topic@)->0.examples);
        assert(str_views(notes@) =~= pages_4(topic@)->0.notes);
        return Some(
            page(
                "bool VALUE",
                "Succeeds only for `1` or `true`.",
                &examples,
                &notes,
            ),
        );
    }
    if same(topic, "contains") {
        let examples: [&str; 1] = [
            "contains \"hello world\" world",
        ];
        let notes: [&str; 0] = [];
        assert(str_views(examples@) =~= pages_4(topic@)->0.examples);
        assert(str_views(notes@) =~= pages_4(topic@)->0.notes);
        return Some(
            page(
                "contains VALUE TEST...",
                "Succeeds when VALUE contains any TEST.",
                &examples,
                &notes,
            ),
        );
    }
    if same(topic, "starts-with") {
        let examples: [&str; 1] = [
            "starts-with report.csv report",
        ];
        let notes: [&str; 0] = [];
        assert(str_views(examples@) =~= pages_4(topic@)->0.examples);
        assert(str_views(notes@) =~= pages_4(topic@)->0.notes);
        return Some(
            page(
                "starts-with VALUE TEST...",
                "Succeeds when VALUE starts with any TEST.",
                &examples,
                &notes,
            ),
        );
    }
    if same(topic, "ends-with") {
        let examples: [&str; 1] = [
            "ends-with report.csv .csv",
        ];
        let notes: [&str; 0] = [];
        assert(str_views(examples@) =~= pages_4(topic@)->0.examples);
        assert(str_views(notes@) =~= pages_4(topic@)->0.notes);
        return Some(
            page(
                "ends-with VALUE TEST...",
                "Succeeds when VALUE ends with any TEST.",
                &examples,
                &notes,
            ),
        );
    }
    if same(topic, "eq") || same(topic, "is") {
        let examples: [&str; 2] = [
            "eq $mode production",
            "is not $left $right",
        ];
        let notes: [&str; 1] = [
            "`is` is an alias.",
        ];
        assert(str_views(examples@) =~= pages_4(topic@)->0.examples);
        assert(str_views(notes@) =~= pages_4(topic@)->0.notes);
        return Some(
            page(
                "eq [not] VALUE VALUE",
                "Compares two values for equality (or inequality with `not`).",
                &examples,
                &notes,
            ),
        );
    }
    if same(topic, "exists") {
        let examples: [&str; 3] = [
            "exists -s name",
            "exists --fn PROMPT",
            "exists report.txt",
        ];
        let notes: [&str; 0] = [];
        assert(str_views(examples@) =~= pages_4(topic@)->0.examples);
        assert(str_views(notes@) =~= pages_4(topic@)->0.notes);
        return Some(
            page(
                "exists [-s|-a|--fn] NAME  |  exists PATH",
                "Checks for a scalar, array, function, or filesystem path.",
                &examples,
                &notes,
            ),
        );
    }
    if same(topic, "intersects") {
        let examples: [&str; 1] = [
            "intersects allowed selected",
        ];
        let notes: [&str; 0] = [];
        assert(str_views(examples@) =~= pages_4(topic@)->0.examples);
        assert(str_views(notes@) =~= pages_4(topic@)->0.notes);
        return Some(
            page(
                "intersects ARRAY1 ARRAY2",
                "Succeeds when two named arrays share at least one value.",
                &examples,
                &notes,
            ),
        );
    }
    if same(topic, "isatty") {
        let examples: [&str; 1] = [
            "isatty 1",
        ];
        let notes: [&str; 0] = [];
        assert(str_views(examples@) =~= pages_4(topic@)->0.examples);
        assert(str_views(notes@) =~= pages_4(topic@)->0.notes);
        return Some(
            page(
                "isatty [FD]",
                "Checks whether stdin (0), stdout (1), or stderr (2) is a terminal. With no argument, succeeds.",
                &examples,
                &notes,
            ),
        );
    }
    if same(topic, "and") || same(topic, "or") {
        let examples: [&str; 2] = [
            "test -f file && echo found",
            "test -f file || echo missing",
        ];
        let notes: [&str; 1] = [
            "Symbol forms are && and ||.",
        ];
        assert(str_views(examples@) =~= pages_4(topic@)->0.examples);
        assert(str_views(notes@) =~= pages_4(topic@)->0.notes);
        return Some(
            page(
                topic,
                "`and COMMAND` runs after success; `or COMMAND` runs after failure.",
                &examples,
                &notes,
            ),
        );
    }
    if same(topic, "which") || same(topic, "type") {
        let examples: [&str; 1] = [
            "which ion-win git copy",
        ];
        let notes: [&str; 1] = [
            "`type` is an alias.",
        ];
        assert(str_views(examples@) =~= pages_4(topic@)->0.examples);
        assert(str_views(notes@) =~= pages_4(topic@)->0.notes);
        return Some(
            page(
                "which PROGRAM...",
                "Reports whether each name is a builtin, function, or PATH executable.",
                &examples,
                &notes,
            ),
        );
    }
    if same(topic, "eval") {
        let examples: [&str; 1] = [
            "eval \"echo $name\"",
        ];
        let notes: [&str; 0] = [];
        assert(str_views(examples@) =~= pages_4(topic@)->0.examples);
        assert(str_views(notes@) =~= pages_4(topic@)->0.notes);
        return Some(
            page(
                "eval WORD...",
                "Joins arguments and evaluates them as a new Ion command.",
                &examples,
                &notes,
            ),
        );
    }
    None
}

/// The help on a topic, part 5.
pub open spec fn pages_5(topic: Seq<char>) -> Option<PageView> {
    if topic == "pvar"@ {
        Some(
            PageView {
                usage: "pvar set KEY = VALUE\n        pvar get KEY\n        pvar list\n        pvar delete KEY"@,
                summary: "Stores persistent scalar values in the ion-win state database."@,
                examples: seq![
                "pvar set project = ion-win"@,
                "pvar get project"@,
            ],
                notes: Seq::empty(),
            },
        )
    } else if topic == "dmark"@ {
        Some(
            PageView {
                usage: "dmark add NAME [PATH]\n        dmark list\n        dmark jump NAME"@,
                summary: "Stores and revisits persistent directory bookmarks."@,
                examples: seq![
                "dmark add repo ."@,
                "dmark jump repo"@,
            ],
                notes: Seq::empty(),
            },
        )
    } else if topic == "jobs"@ {
        Some(
            PageView {
                usage: "jobs"@,
                summary: "Lists tracked background processes."@,
                examples: seq![
                "long-command &"@,
                "jobs"@,
            ],
                notes: Seq::empty(),
            },
        )
    } else if topic == "wait"@ {
        Some(
            PageView {
                usage: "wait"@,
                summary: "Waits for all tracked background processes."@,
                examples: Seq::empty(),
                notes: Seq::empty(),
            },
        )
    } else if topic == "disown"@ {
        Some(
            PageView {
                usage: "disown [-a | PID...]"@,
                summary: "Stops tracking selected or all background processes without terminating them."@,
                examples: seq![
                "disown -a"@,
            ],
                notes: Seq::empty(),
            },
        )
    } else if topic == "source"@ {
        Some(
            PageView {
                usage: "source FILE"@,
                summary: "Executes an Ion script in the current shell and scope."@,
                examples: seq![
                "source setup.ion"@,
            ],
                notes: Seq::empty(),
            },
        )
    } else if topic == "highlight"@ {
        Some(
            PageView {
                usage: "highlight [on|off]"@,
                summary: "Shows or changes live syntax highlighting in the line editor."@,
                examples: seq![
                "highlight off"@,
            ],
                notes: Seq::empty(),
            },
        )
    } else if topic == "cls"@ {
        Some(
            PageView {
                usage: "cls"@,
                summary: "Clears the terminal and moves the cursor to the top-left corner."@,
                examples: Seq::empty(),
                notes: Seq::empty(),
            },
        )
    } else if topic == "from-json"@ {
        Some(
            PageView {
                usage: "BYTES | from-json"@,
                summary: "Parses a JSON object or array of objects into a table."@,
                examples: seq![
                "cat data.json | from-json | select name"@,
            ],
                notes: seq![
                "Structured stages are pipeline-only."@,
            ],
            },
        )
    } else if topic == "from-csv"@ {
        Some(
            PageView {
                usage: "BYTES | from-csv"@,
                summary: "Parses CSV with a header row into a table."@,
                examples: seq![
                "cat data.csv | from-csv | where size -gt 100"@,
            ],
                notes: seq![
                "Structured stages are pipeline-only."@,
            ],
            },
        )
    } else if topic == "select"@ {
        Some(
            PageView {
                usage: "TABLE | select COLUMN..."@,
                summary: "Projects selected columns from each table row."@,
                examples: seq![
                "manifest | select path size | to-csv"@,
            ],
                notes: Seq::empty(),
            },
        )
    } else if topic == "where"@ || topic == "filter"@ {
        Some(
            PageView {
                usage: "TABLE | where COLUMN OP VALUE"@,
                summary: "Keeps rows whose column satisfies a test operator."@,
                examples: seq![
                "manifest | where size -gt 1000000"@,
            ],
                notes: seq![
                "`filter` is an alias. Operators match `help test`."@,
            ],
            },
        )
    } else {
        None
    }
}

#[verifier::spinoff_prover]
fn write_page_5(topic: &str) -> (r: Option<String>)
    ensures
        match r {
            Some(s) => pages_5(topic@) is Some && s@ == page_text(pages_5(topic@)->0),
            None => pages_5(topic@) is None,
        },
{
    if same(topic, "pvar") {
        let examples: [&str; 2] = [
            "pvar set project = ion-win",
            "pvar get project",
        ];
        let notes: [&str; 0] = [];
        assert(str_views(examples@) =~= pages_5(topic@)->0.examples);
        assert(str_views(notes@) =~= pages_5(topic@)->0.notes);
        return Some(
            page(
                "pvar set KEY = VALUE\n        pvar get KEY\n        pvar list\n        pvar delete KEY",
                "Stores persistent scalar values in the ion-win state database.",
                &examples,
                &notes,
            ),
        );
    }
    if same(topic, "dmark") {
        let examples: [&str; 2] = [
            "dmark add repo .",
            "dmark jump repo",
        ];
        let notes: [&str; 0] = [];
        assert(str_views(examples@) =~= pages_5(topic@)->0.examples);
        assert(str_views(notes@) =~= pages_5(topic@)->0.notes);
        return Some(
            page(
                "dmark add NAME [PATH]\n        dmark list\n        dmark jump NAME",
                "Stores and revisits persistent directory bookmarks.",
                &examples,
                &notes,
            ),
        );
    }
    if same(topic, "jobs") {
        let examples: [&str; 2] = [
            "long-command &",
            "jobs",
        ];
        let notes: [&str; 0] = [];
        assert(str_views(examples@) =~= pages_5(topic@)->0.examples);
        assert(str_views(notes@) =~= pages_5(topic@)->0.notes);
        return Some(
            page(
                "jobs",
                "Lists tracked background processes.",
                &examples,
                &notes,
            ),
        );
    }
    if same(topic, "wait") {
        let examples: [&str; 0] = [];
        let notes: [&str; 0] = [];
        assert(str_views(examples@) =~= pages_5(topic@)->0.examples);
        assert(str_views(notes@) =~= pages_5(topic@)->0.notes);
        return Some(
            page(
                "wait",
                "Waits for all tracked background processes.",
                &examples,
                &notes,
            ),
        );
    }
    if same(topic, "disown") {
        let examples: [&str; 1] = [
            "disown -a",
        ];
        let notes: [&str; 0] = [];
        assert(str_views(examples@) =~= pages_5(topic@)->0.examples);
        assert(str_views(notes@) =~= pages_5(topic@)->0.notes);
        return Some(
            page(
                "disown [-a | PID...]",
                "Stops tracking selected or all background processes without terminating them.",
                &examples,
                &notes,
            ),
        );
    }
    if same(topic, "source") {
        let examples: [&str; 1] = [
            "source setup.ion",
        ];
        let notes: [&str; 0] = [];
        assert(str_views(examples@) =~= pages_5(topic@)->0.examples);
        assert(str_views(notes@) =~= pages_5(topic@)->0.notes);
        return Some(
            page(
                "source FILE",
                "Executes an Ion script in the current shell and scope.",
                &examples,
                &notes,
            ),
        );
    }
    if same(topic, "highlight") {
        let examples: [&str; 1] = [
            "highlight off",
        ];
        let notes: [&str; 0] = [];
        assert(str_views(examples@) =~= pages_5(topic@)->0.examples);
        assert(str_views(notes@) =~= pages_5(topic@)->0.notes);
        return Some(
            page(
                "highlight [on|off]",
                "Shows or changes live syntax highlighting in the line editor.",
                &examples,
                &notes,
            ),
        );
    }
    if same(topic, "cls") {
        let examples: [&str; 0] = [];
        let notes: [&str; 0] = [];
        assert(str_views(examples@) =~= pages_5(topic@)->0.examples);
        assert(str_views(notes@) =~= pages_5(topic@)->0.notes);
        return Some(
            page(
                "cls",
                "Clears the terminal and moves the cursor to the top-left corner.",
                &examples,
                &notes,
            ),
        );
    }
    if same(topic, "from-json") {
        let examples: [&str; 1] = [
            "cat data.json | from-json | select name",
        ];
        let notes: [&str; 1] = [
            "Structured stages are pipeline-only.",
        ];
        assert(str_views(examples@) =~= pages_5(topic@)->0.examples);
        assert(str_views(notes@) =~= pages_5(topic@)->0.notes);
        return Some(
            page(
                "BYTES | from-json",
                "Parses a JSON object or array of objects into a table.",
                &examples,
                &notes,
            ),
        );
    }
    if same(topic, "from-csv") {
        let examples: [&str; 1] = [
            "cat data.csv | from-csv | where size -gt 100",
        ];
        let notes: [&str; 1] = [
            "Structured stages are pipeline-only.",
        ];
        assert(str_views(examples@) =~= pages_5(topic@)->0.examples);
        assert(str_views(notes@) =~= pages_5(topic@)->0.notes);
        return Some(
            page(
                "BYTES | from-csv",
                "Parses CSV with a header row into a table.",
                &examples,
                &notes,
            ),
        );
    }
    if same(topic, "select") {
        let examples: [&str; 1] = [
            "manifest | select path size | to-csv",
        ];
        let notes: [&str; 0] = [];
        assert(str_views(examples@) =~= pages_5(topic@)->0.examples);
        assert(str_views(notes@) =~= pages_5(topic@)->0.notes);
        return Some(
            page(
                "TABLE | select COLUMN...",
                "Projects selected columns from each table row.",
                &examples,
                &notes,
            ),
        );
    }
    if same(topic, "where") || same(topic, "filter") {
        let examples: [&str; 1] = [
            "manifest | where size -gt 1000000",
        ];
        let notes: [&str; 1] = [
            "`filter` is an alias. Operators match `help test`.",
        ];
        assert(str_views(examples@) =~= pages_5(topic@)->0.examples);
        assert(str_views(notes@) =~= pages_5(topic@)->0.notes);
        return Some(
            page(
                "TABLE | where COLUMN OP VALUE",
                "Keeps rows whose column satisfies a test operator.",
                &examples,
                &notes,
            ),
        );
    }
    None
}

/// The help on a topic, part 6.
pub open spec fn pages_6(topic: Seq<char>) -> Option<PageView> {
    if topic == "to-json"@ {
        Some(
            PageView {
                usage: "TABLE | to-json"@,
                summary: "Serializes a table as JSON."@,
                examples: seq![
                "manifest | to-json > listing.json"@,
            ],
                notes: Seq::empty(),
            },
        )
    } else if topic == "to-csv"@ {
        Some(
            PageView {
                usage: "TABLE | to-csv"@,
                summary: "Serializes a table as CSV."@,
                examples: seq![
                "manifest | select path size | to-csv > manifest.csv"@,
            ],
                notes: Seq::empty(),
            },
        )
    } else if topic == "date-column"@ {
        Some(
            PageView {
                usage: "TABLE | date-column SOURCE DEST OP [ARG...]"@,
                summary: "Transforms one temporal column of a table into another: parsing, formatting, time-zone conversion, and calendar arithmetic for every row."@,
                examples: seq![
                "manifest | date-column modified year format %Y"@,
            ],
                notes: seq![
                "A table must be piped in; pipe through from-json or from-csv first."@,
            ],
            },
        )
    } else if topic == "pg-connect"@ {
        Some(
            PageView {
                usage: "pg-connect [--host HOST] [--port PORT] [--database DATABASE] [--user USER]"@,
                summary: "Waits until a PostgreSQL server accepts connections, then opens an interactive psql session on the same connection."@,
                examples: seq![
                "pg-connect"@,
                "pg-connect --host localhost --port 5432 --database postgres --user postgres"@,
            ],
                notes: seq![
                "The defaults are localhost, port 5432, database postgres, and user postgres."@,
                "Both pg_isready and psql must be on PATH."@,
                "Authentication follows libpq: PGPASSWORD, pgpass.conf, or the psql password prompt."@,
            ],
            },
        )
    } else if topic == "elevate"@ {
        Some(
            PageView {
                usage: "elevate [--wait] [--cwd DIRECTORY] PROGRAM [ARG...]"@,
                summary: "Starts one external program through the Windows UAC consent prompt."@,
                examples: seq![
                "elevate notepad.exe C:\\Windows\\System32\\drivers\\etc\\hosts"@,
                "elevate --wait --cwd C:\\Work installer.exe /quiet"@,
            ],
                notes: seq![
                "Without --wait the shell returns once the program is launched; with it, success means exit code 0."@,
                "Credentials are never stored and UAC is never bypassed."@,
                "Pipeline input is not accepted."@,
            ],
            },
        )
    } else if topic == "is-elevated"@ {
        Some(
            PageView {
                usage: "is-elevated"@,
                summary: "Succeeds when the shell runs with the rights of an administrator, without showing UAC."@,
                examples: seq![
                "if is-elevated; echo yes; end"@,
            ],
                notes: seq![
                "The answer is the command status; nothing is printed."@,
            ],
            },
        )
    } else {
        None
    }
}

#[verifier::spinoff_prover]
fn write_page_6(topic: &str) -> (r: Option<String>)
    ensures
        match r {
            Some(s) => pages_6(topic@) is Some && s@ == page_text(pages_6(topic@)->0),
            None => pages_6(topic@) is None,
        },
{
    if same(topic, "to-json") {
        let examples: [&str; 1] = [
            "manifest | to-json > listing.json",
        ];
        let notes: [&str; 0] = [];
        assert(str_views(examples@) =~= pages_6(topic@)->0.examples);
        assert(str_views(notes@) =~= pages_6(topic@)->0.notes);
        return Some(
            page(
                "TABLE | to-json",
                "Serializes a table as JSON.",
                &examples,
                &notes,
            ),
        );
    }
    if same(topic, "to-csv") {
        let examples: [&str; 1] = [
            "manifest | select path size | to-csv > manifest.csv",
        ];
        let notes: [&str; 0] = [];
        assert(str_views(examples@) =~= pages_6(topic@)->0.examples);
        assert(str_views(notes@) =~= pages_6(topic@)->0.notes);
        return Some(
            page(
                "TABLE | to-csv",
                "Serializes a table as CSV.",
                &examples,
                &notes,
            ),
        );
    }
    if same(topic, "date-column") {
        let examples: [&str; 1] = [
            "manifest | date-column modified year format %Y",
        ];
        let notes: [&str; 1] = [
            "A table must be piped in; pipe through from-json or from-csv first.",
        ];
        assert(str_views(examples@) =~= pages_6(topic@)->0.examples);
        assert(str_views(notes@) =~= pages_6(topic@)->0.notes);
        return Some(
            page(
                "TABLE | date-column SOURCE DEST OP [ARG...]",
                "Transforms one temporal column of a table into another: parsing, formatting, time-zone conversion, and calendar arithmetic for every row.",
                &examples,
                &notes,
            ),
        );
    }
    if same(topic, "pg-connect") {
        let examples: [&str; 2] = [
            "pg-connect",
            "pg-connect --host localhost --port 5432 --database postgres --user postgres",
        ];
        let notes: [&str; 3] = [
            "The defaults are localhost, port 5432, database postgres, and user postgres.",
            "Both pg_isready and psql must be on PATH.",
            "Authentication follows libpq: PGPASSWORD, pgpass.conf, or the psql password prompt.",
        ];
        assert(str_views(examples@) =~= pages_6(topic@)->0.examples);
        assert(str_views(notes@) =~= pages_6(topic@)->0.notes);
        return Some(
            page(
                "pg-connect [--host HOST] [--port PORT] [--database DATABASE] [--user USER]",
                "Waits until a PostgreSQL server accepts connections, then opens an interactive psql session on the same connection.",
                &examples,
                &notes,
            ),
        );
    }
    if same(topic, "elevate") {
        let examples: [&str; 2] = [
            "elevate notepad.exe C:\\Windows\\System32\\drivers\\etc\\hosts",
            "elevate --wait --cwd C:\\Work installer.exe /quiet",
        ];
        let notes: [&str; 3] = [
            "Without --wait the shell returns once the program is launched; with it, success means exit code 0.",
            "Credentials are never stored and UAC is never bypassed.",
            "Pipeline input is not accepted.",
        ];
        assert(str_views(examples@) =~= pages_6(topic@)->0.examples);
        assert(str_views(notes@) =~= pages_6(topic@)->0.notes);
        return Some(
            page(
                "elevate [--wait] [--cwd DIRECTORY] PROGRAM [ARG...]",
                "Starts one external program through the Windows UAC consent prompt.",
                &examples,
                &notes,
            ),
        );
    }
    if same(topic, "is-elevated") {
        let examples: [&str; 1] = [
            "if is-elevated; echo yes; end",
        ];
        let notes: [&str; 1] = [
            "The answer is the command status; nothing is printed.",
        ];
        assert(str_views(examples@) =~= pages_6(topic@)->0.examples);
        assert(str_views(notes@) =~= pages_6(topic@)->0.notes);
        return Some(
            page(
                "is-elevated",
                "Succeeds when the shell runs with the rights of an administrator, without showing UAC.",
                &examples,
                &notes,
            ),
        );
    }
    None
}

/// The help on a topic.
pub open spec fn focused(topic: Seq<char>) -> Option<PageView> {
    if pages_1(topic) is Some {
        pages_1(topic)
    } else if pages_2(topic) is Some {
        pages_2(topic)
    } else if pages_3(topic) is Some {
        pages_3(topic)
    } else if pages_4(topic) is Some {
        pages_4(topic)
    } else if pages_5(topic) is Some {
        pages_5(topic)
    } else {
        pages_6(topic)
    }
}

/// A text with its ASCII letters in lower case.
pub open spec fn ascii_lower(s: Seq<char>) -> Seq<char> {
    Seq::new(
        s.len(),
        |i: int|
            if 65 <= s[i] as u32 <= 90 {
                ((s[i] as u32 + 32) as u8) as char
            } else {
                s[i]
            },
    )
}

/// Writes a text with its ASCII letters in lower case.
pub fn ascii_lower_text(s: &str) -> (r: String)
    ensures
        r@ == ascii_lower(s@),
{
    let v = chars_of(s);
    let mut out: Vec<char> = Vec::new();
    let mut i: usize = 0;
    while i < v.len()
        invariant
            i <= v@.len(),
            v@ == s@,
            out@ == ascii_lower(s@).take(i as int),
        decreases v@.len() - i,
    {
        let u = code_of(v[i]);
        let c = if 65 <= u && u <= 90 {
            ((u + 32) as u8) as char
        } else {
            v[i]
        };
        out.push(c);
        assert(ascii_lower(s@).take(i + 1) =~= ascii_lower(s@).take(i as int).push(c));
        i = i + 1;
    }
    assert(ascii_lower(s@).take(s@.len() as int) =~= ascii_lower(s@));
    text_of(&out)
}

/// The overview that `help` shows without a topic.
pub open spec fn overview() -> Seq<char> {
    "ion-win help\n\nUsage:  help TOPIC\n\nGetting started\n  help syntax      variables, arrays, expansion, pipes, and redirection\n  help tables      structured pipelines and manifest workflows\n  help methods     string and array methods\n  help history     shared history settings\n\nCommands by category\n  Navigation       cd  pushd  popd  pwd  dirs  folders  files  find  dmark\n  Files            mkdir  cat  stat  copy  move  rename  compress  delete\n  Language         let  export  drop  read  echo  eval  source  fn\n  Control flow     if  while  for  match  and  or  break  continue\n  Conditions       test  matches  bool  contains  starts-with  ends-with\n                   eq/is  exists  intersects  isatty  true  false  not\n  Tables           from-json  from-csv  select  where/filter  to-json  to-csv\n  State & jobs     pvar  jobs  wait  disown  which/type\n  Editor           highlight  cls\n\nExamples\n  help delete\n  help test\n  help tables\n\nTab completes command names. `help all` prints the complete command index."@
}

/// What `help` gives: the overview, the command index, or the page of a
/// topic, in whatever case it is written.
pub open spec fn help(topic: Option<Seq<char>>) -> Result<Seq<char>, Seq<char>> {
    match topic {
        None => Ok(overview()),
        Some(t) => {
            let name = ascii_lower(t);
            if name == "all"@ || name == "commands"@ {
                Ok(index_text())
            } else {
                match focused(name) {
                    Some(p) => Ok(page_text(p)),
                    None => Err(
                        "help: unknown topic '"@ + name
                            + "'. Run `help` for categories or `help all` for the command index."@,
                    ),
                }
            }
        },
    }
}

/// Shows the overview, the command index, or the page of a topic.
pub fn help_text(topic: Option<&str>) -> (r: Result<String, String>)
    ensures
        (match r {
            Ok(s) => Ok(s@),
            Err(e) => Err(e@),
        }) == help(
            match topic {
                Some(t) => Some(t@),
                None => None,
            },
        ),
{
    let topic = match topic {
        None => return Ok("ion-win help\n\nUsage:  help TOPIC\n\nGetting started\n  help syntax      variables, arrays, expansion, pipes, and redirection\n  help tables      structured pipelines and manifest workflows\n  help methods     string and array methods\n  help history     shared history settings\n\nCommands by category\n  Navigation       cd  pushd  popd  pwd  dirs  folders  files  find  dmark\n  Files            mkdir  cat  stat  copy  move  rename  compress  delete\n  Language         let  export  drop  read  echo  eval  source  fn\n  Control flow     if  while  for  match  and  or  break  continue\n  Conditions       test  matches  bool  contains  starts-with  ends-with\n                   eq/is  exists  intersects  isatty  true  false  not\n  Tables           from-json  from-csv  select  where/filter  to-json  to-csv\n  State & jobs     pvar  jobs  wait  disown  which/type\n  Editor           highlight  cls\n\nExamples\n  help delete\n  help test\n  help tables\n\nTab completes command names. `help all` prints the complete command index.".to_owned()),
        Some(t) => ascii_lower_text(t),
    };
    let name = topic.as_str();
    if same(name, "all") || same(name, "commands") {
        return Ok(command_index());
    }
    match write_page_1(name) {
        Some(s) => return Ok(s),
        None => {},
    }
    match write_page_2(name) {
        Some(s) => return Ok(s),
        None => {},
    }
    match write_page_3(name) {
        Some(s) => return Ok(s),
        None => {},
    }
    match write_page_4(name) {
        Some(s) => return Ok(s),
        None => {},
    }
    match write_page_5(name) {
        Some(s) => return Ok(s),
        None => {},
    }
    match write_page_6(name) {
        Some(s) => return Ok(s),
        None => {},
    }
    Err(
        cat3(
            "help: unknown topic '",
            name,
            "'. Run `help` for categories or `help all` for the command index.",
        ),
    )
}

// ---------------------------------------------------------------------------
// Laws
// ---------------------------------------------------------------------------

/// Whether a topic has a page of its own.
#[verifier::opaque]
pub open spec fn has_page(topic: Seq<char>) -> bool {
    focused(topic) is Some
}

/// Whether a name is written without capitals.
#[verifier::opaque]
pub open spec fn is_lower(name: Seq<char>) -> bool {
    ascii_lower(name) == name
}

proof fn lemma_page_is_shown(name: Seq<char>)
    requires
        has_page(name),
        is_lower(name),
    ensures
        focused(name) is Some,
        help(Some(name)) is Ok,
{
    reveal(has_page);
    reveal(is_lower);
}

#[verifier::spinoff_prover]
proof fn lemma_words_1_have_pages()
    ensures
        forall|i: int| 0 <= i < words_1().len() ==> has_page((#[trigger] words_1()[i]).name),
{
    assert(has_page("exit"@)) by {
        reveal(has_page);
        assert(pages_1("exit"@) is Some);
    }
    assert(has_page("quit"@)) by {
        reveal(has_page);
        assert(pages_1("quit"@) is Some);
    }
    assert(has_page("help"@)) by {
        reveal(has_page);
        assert(pages_1("help"@) is Some);
    }
    assert(has_page("let"@)) by {
        reveal(has_page);
        assert(pages_1("let"@) is Some);
    }
    assert(has_page("export"@)) by {
        reveal(has_page);
        assert(pages_1("export"@) is Some);
    }
    assert(has_page("drop"@)) by {
        reveal(has_page);
        assert(pages_1("drop"@) is Some);
    }
    assert(has_page("read"@)) by {
        reveal(has_page);
        assert(pages_1("read"@) is Some);
    }
    assert(has_page("echo"@)) by {
        reveal(has_page);
        assert(pages_1("echo"@) is Some);
    }
    assert(has_page("cd"@)) by {
        reveal(has_page);
        assert(pages_1("cd"@) is Some);
    }
    assert(has_page("pushd"@)) by {
        reveal(has_page);
        assert(pages_2("pushd"@) is Some);
    }
    assert(has_page("popd"@)) by {
        reveal(has_page);
        assert(pages_2("popd"@) is Some);
    }
    assert(has_page("pwd"@)) by {
        reveal(has_page);
        assert(pages_2("pwd"@) is Some);
    }
    assert(has_page("dirs"@)) by {
        reveal(has_page);
        assert(pages_2("dirs"@) is Some);
    }
    assert(has_page("folders"@)) by {
        reveal(has_page);
        assert(pages_2("folders"@) is Some);
    }
    assert(has_page("files"@)) by {
        reveal(has_page);
        assert(pages_2("files"@) is Some);
    }
    assert(has_page("find"@)) by {
        reveal(has_page);
        assert(pages_2("find"@) is Some);
    }
}

#[verifier::spinoff_prover]
proof fn lemma_words_1_are_lower()
    ensures
        forall|i: int| 0 <= i < words_1().len() ==> is_lower((#[trigger] words_1()[i]).name),
{
    assert(is_lower("exit"@)) by {
        reveal(is_lower);
        reveal_strlit("exit");
        assert(ascii_lower("exit"@) =~= "exit"@);
    }
    assert(is_lower("quit"@)) by {
        reveal(is_lower);
        reveal_strlit("quit");
        assert(ascii_lower("quit"@) =~= "quit"@);
    }
    assert(is_lower("help"@)) by {
        reveal(is_lower);
        reveal_strlit("help");
        assert(ascii_lower("help"@) =~= "help"@);
    }
    assert(is_lower("let"@)) by {
        reveal(is_lower);
        reveal_strlit("let");
        assert(ascii_lower("let"@) =~= "let"@);
    }
    assert(is_lower("export"@)) by {
        reveal(is_lower);
        reveal_strlit("export");
        assert(ascii_lower("export"@) =~= "export"@);
    }
    assert(is_lower("drop"@)) by {
        reveal(is_lower);
        reveal_strlit("drop");
        assert(ascii_lower("drop"@) =~= "drop"@);
    }
    assert(is_lower("read"@)) by {
        reveal(is_lower);
        reveal_strlit("read");
        assert(ascii_lower("read"@) =~= "read"@);
    }
    assert(is_lower("echo"@)) by {
        reveal(is_lower);
        reveal_strlit("echo");
        assert(ascii_lower("echo"@) =~= "echo"@);
    }
    assert(is_lower("cd"@)) by {
        reveal(is_lower);
        reveal_strlit("cd");
        assert(ascii_lower("cd"@) =~= "cd"@);
    }
    assert(is_lower("pushd"@)) by {
        reveal(is_lower);
        reveal_strlit("pushd");
        assert(ascii_lower("pushd"@) =~= "pushd"@);
    }
    assert(is_lower("popd"@)) by {
        reveal(is_lower);
        reveal_strlit("popd");
        assert(ascii_lower("popd"@) =~= "popd"@);
    }
    assert(is_lower("pwd"@)) by {
        reveal(is_lower);
        reveal_strlit("pwd");
        assert(ascii_lower("pwd"@) =~= "pwd"@);
    }
    assert(is_lower("dirs"@)) by {
        reveal(is_lower);
        reveal_strlit("dirs");
        assert(ascii_lower("dirs"@) =~= "dirs"@);
    }
    assert(is_lower("folders"@)) by {
        reveal(is_lower);
        reveal_strlit("folders");
        assert(ascii_lower("folders"@) =~= "folders"@);
    }
    assert(is_lower("files"@)) by {
        reveal(is_lower);
        reveal_strlit("files");
        assert(ascii_lower("files"@) =~= "files"@);
    }
    assert(is_lower("find"@)) by {
        reveal(is_lower);
        reveal_strlit("find");
        assert(ascii_lower("find"@) =~= "find"@);
    }
}

#[verifier::spinoff_prover]
proof fn lemma_words_2_have_pages()
    ensures
        forall|i: int| 0 <= i < words_2().len() ==> has_page((#[trigger] words_2()[i]).name),
{
    assert(has_page("cat"@)) by {
        reveal(has_page);
        assert(pages_2("cat"@) is Some);
    }
    assert(has_page("stat"@)) by {
        reveal(has_page);
        assert(pages_2("stat"@) is Some);
    }
    assert(has_page("copy"@)) by {
        reveal(has_page);
        assert(pages_2("copy"@) is Some);
    }
    assert(has_page("cp"@)) by {
        reveal(has_page);
        assert(pages_2("cp"@) is Some);
    }
    assert(has_page("mkdir"@)) by {
        reveal(has_page);
        assert(pages_2("mkdir"@) is Some);
    }
    assert(has_page("md"@)) by {
        reveal(has_page);
        assert(pages_2("md"@) is Some);
    }
    assert(has_page("move"@)) by {
        reveal(has_page);
        assert(pages_2("move"@) is Some);
    }
    assert(has_page("mv"@)) by {
        reveal(has_page);
        assert(pages_2("mv"@) is Some);
    }
    assert(has_page("rename"@)) by {
        reveal(has_page);
        assert(pages_3("rename"@) is Some);
    }
    assert(has_page("ren"@)) by {
        reveal(has_page);
        assert(pages_3("ren"@) is Some);
    }
    assert(has_page("compress"@)) by {
        reveal(has_page);
        assert(pages_3("compress"@) is Some);
    }
    assert(has_page("delete"@)) by {
        reveal(has_page);
        assert(pages_3("delete"@) is Some);
    }
    assert(has_page("if"@)) by {
        reveal(has_page);
        assert(pages_3("if"@) is Some);
    }
    assert(has_page("else"@)) by {
        reveal(has_page);
        assert(pages_3("else"@) is Some);
    }
    assert(has_page("while"@)) by {
        reveal(has_page);
        assert(pages_3("while"@) is Some);
    }
    assert(has_page("for"@)) by {
        reveal(has_page);
        assert(pages_3("for"@) is Some);
    }
}

#[verifier::spinoff_prover]
proof fn lemma_words_2_are_lower()
    ensures
        forall|i: int| 0 <= i < words_2().len() ==> is_lower((#[trigger] words_2()[i]).name),
{
    assert(is_lower("cat"@)) by {
        reveal(is_lower);
        reveal_strlit("cat");
        assert(ascii_lower("cat"@) =~= "cat"@);
    }
    assert(is_lower("stat"@)) by {
        reveal(is_lower);
        reveal_strlit("stat");
        assert(ascii_lower("stat"@) =~= "stat"@);
    }
    assert(is_lower("copy"@)) by {
        reveal(is_lower);
        reveal_strlit("copy");
        assert(ascii_lower("copy"@) =~= "copy"@);
    }
    assert(is_lower("cp"@)) by {
        reveal(is_lower);
        reveal_strlit("cp");
        assert(ascii_lower("cp"@) =~= "cp"@);
    }
    assert(is_lower("mkdir"@)) by {
        reveal(is_lower);
        reveal_strlit("mkdir");
        assert(ascii_lower("mkdir"@) =~= "mkdir"@);
    }
    assert(is_lower("md"@)) by {
        reveal(is_lower);
        reveal_strlit("md");
        assert(ascii_lower("md"@) =~= "md"@);
    }
    assert(is_lower("move"@)) by {
        reveal(is_lower);
        reveal_strlit("move");
        assert(ascii_lower("move"@) =~= "move"@);
    }
    assert(is_lower("mv"@)) by {
        reveal(is_lower);
        reveal_strlit("mv");
        assert(ascii_lower("mv"@) =~= "mv"@);
    }
    assert(is_lower("rename"@)) by {
        reveal(is_lower);
        reveal_strlit("rename");
        assert(ascii_lower("rename"@) =~= "rename"@);
    }
    assert(is_lower("ren"@)) by {
        reveal(is_lower);
        reveal_strlit("ren");
        assert(ascii_lower("ren"@) =~= "ren"@);
    }
    assert(is_lower("compress"@)) by {
        reveal(is_lower);
        reveal_strlit("compress");
        assert(ascii_lower("compress"@) =~= "compress"@);
    }
    assert(is_lower("delete"@)) by {
        reveal(is_lower);
        reveal_strlit("delete");
        assert(ascii_lower("delete"@) =~= "delete"@);
    }
    assert(is_lower("if"@)) by {
        reveal(is_lower);
        reveal_strlit("if");
        assert(ascii_lower("if"@) =~= "if"@);
    }
    assert(is_lower("else"@)) by {
        reveal(is_lower);
        reveal_strlit("else");
        assert(ascii_lower("else"@) =~= "else"@);
    }
    assert(is_lower("while"@)) by {
        reveal(is_lower);
        reveal_strlit("while");
        assert(ascii_lower("while"@) =~= "while"@);
    }
    assert(is_lower("for"@)) by {
        reveal(is_lower);
        reveal_strlit("for");
        assert(ascii_lower("for"@) =~= "for"@);
    }
}

#[verifier::spinoff_prover]
proof fn lemma_words_3_have_pages()
    ensures
        forall|i: int| 0 <= i < words_3().len() ==> has_page((#[trigger] words_3()[i]).name),
{
    assert(has_page("in"@)) by {
        reveal(has_page);
        assert(pages_3("in"@) is Some);
    }
    assert(has_page("fn"@)) by {
        reveal(has_page);
        assert(pages_3("fn"@) is Some);
    }
    assert(has_page("match"@)) by {
        reveal(has_page);
        assert(pages_3("match"@) is Some);
    }
    assert(has_page("case"@)) by {
        reveal(has_page);
        assert(pages_3("case"@) is Some);
    }
    assert(has_page("end"@)) by {
        reveal(has_page);
        assert(pages_3("end"@) is Some);
    }
    assert(has_page("break"@)) by {
        reveal(has_page);
        assert(pages_3("break"@) is Some);
    }
    assert(has_page("continue"@)) by {
        reveal(has_page);
        assert(pages_3("continue"@) is Some);
    }
    assert(has_page("test"@)) by {
        reveal(has_page);
        assert(pages_3("test"@) is Some);
    }
    assert(has_page("matches"@)) by {
        reveal(has_page);
        assert(pages_3("matches"@) is Some);
    }
    assert(has_page("not"@)) by {
        reveal(has_page);
        assert(pages_3("not"@) is Some);
    }
    assert(has_page("true"@)) by {
        reveal(has_page);
        assert(pages_4("true"@) is Some);
    }
    assert(has_page("false"@)) by {
        reveal(has_page);
        assert(pages_4("false"@) is Some);
    }
    assert(has_page("bool"@)) by {
        reveal(has_page);
        assert(pages_4("bool"@) is Some);
    }
    assert(has_page("contains"@)) by {
        reveal(has_page);
        assert(pages_4("contains"@) is Some);
    }
    assert(has_page("starts-with"@)) by {
        reveal(has_page);
        assert(pages_4("starts-with"@) is Some);
    }
    assert(has_page("ends-with"@)) by {
        reveal(has_page);
        assert(pages_4("ends-with"@) is Some);
    }
}

#[verifier::spinoff_prover]
proof fn lemma_words_3_are_lower()
    ensures
        forall|i: int| 0 <= i < words_3().len() ==> is_lower((#[trigger] words_3()[i]).name),
{
    assert(is_lower("in"@)) by {
        reveal(is_lower);
        reveal_strlit("in");
        assert(ascii_lower("in"@) =~= "in"@);
    }
    assert(is_lower("fn"@)) by {
        reveal(is_lower);
        reveal_strlit("fn");
        assert(ascii_lower("fn"@) =~= "fn"@);
    }
    assert(is_lower("match"@)) by {
        reveal(is_lower);
        reveal_strlit("match");
        assert(ascii_lower("match"@) =~= "match"@);
    }
    assert(is_lower("case"@)) by {
        reveal(is_lower);
        reveal_strlit("case");
        assert(ascii_lower("case"@) =~= "case"@);
    }
    assert(is_lower("end"@)) by {
        reveal(is_lower);
        reveal_strlit("end");
        assert(ascii_lower("end"@) =~= "end"@);
    }
    assert(is_lower("break"@)) by {
        reveal(is_lower);
        reveal_strlit("break");
        assert(ascii_lower("break"@) =~= "break"@);
    }
    assert(is_lower("continue"@)) by {
        reveal(is_lower);
        reveal_strlit("continue");
        assert(ascii_lower("continue"@) =~= "continue"@);
    }
    assert(is_lower("test"@)) by {
        reveal(is_lower);
        reveal_strlit("test");
        assert(ascii_lower("test"@) =~= "test"@);
    }
    assert(is_lower("matches"@)) by {
        reveal(is_lower);
        reveal_strlit("matches");
        assert(ascii_lower("matches"@) =~= "matches"@);
    }
    assert(is_lower("not"@)) by {
        reveal(is_lower);
        reveal_strlit("not");
        assert(ascii_lower("not"@) =~= "not"@);
    }
    assert(is_lower("true"@)) by {
        reveal(is_lower);
        reveal_strlit("true");
        assert(ascii_lower("true"@) =~= "true"@);
    }
    assert(is_lower("false"@)) by {
        reveal(is_lower);
        reveal_strlit("false");
        assert(ascii_lower("false"@) =~= "false"@);
    }
    assert(is_lower("bool"@)) by {
        reveal(is_lower);
        reveal_strlit("bool");
        assert(ascii_lower("bool"@) =~= "bool"@);
    }
    assert(is_lower("contains"@)) by {
        reveal(is_lower);
        reveal_strlit("contains");
        assert(ascii_lower("contains"@) =~= "contains"@);
    }
    assert(is_lower("starts-with"@)) by {
        reveal(is_lower);
        reveal_strlit("starts-with");
        assert(ascii_lower("starts-with"@) =~= "starts-with"@);
    }
    assert(is_lower("ends-with"@)) by {
        reveal(is_lower);
        reveal_strlit("ends-with");
        assert(ascii_lower("ends-with"@) =~= "ends-with"@);
    }
}

#[verifier::spinoff_prover]
proof fn lemma_words_4_have_pages()
    ensures
        forall|i: int| 0 <= i < words_4().len() ==> has_page((#[trigger] words_4()[i]).name),
{
    assert(has_page("eq"@)) by {
        reveal(has_page);
        assert(pages_4("eq"@) is Some);
    }
    assert(has_page("is"@)) by {
        reveal(has_page);
        assert(pages_4("is"@) is Some);
    }
    assert(has_page("exists"@)) by {
        reveal(has_page);
        assert(pages_4("exists"@) is Some);
    }
    assert(has_page("intersects"@)) by {
        reveal(has_page);
        assert(pages_4("intersects"@) is Some);
    }
    assert(has_page("isatty"@)) by {
        reveal(has_page);
        assert(pages_4("isatty"@) is Some);
    }
    assert(has_page("and"@)) by {
        reveal(has_page);
        assert(pages_4("and"@) is Some);
    }
    assert(has_page("or"@)) by {
        reveal(has_page);
        assert(pages_4("or"@) is Some);
    }
    assert(has_page("which"@)) by {
        reveal(has_page);
        assert(pages_4("which"@) is Some);
    }
    assert(has_page("type"@)) by {
        reveal(has_page);
        assert(pages_4("type"@) is Some);
    }
    assert(has_page("eval"@)) by {
        reveal(has_page);
        assert(pages_4("eval"@) is Some);
    }
    assert(has_page("pvar"@)) by {
        reveal(has_page);
        assert(pages_5("pvar"@) is Some);
    }
    assert(has_page("dmark"@)) by {
        reveal(has_page);
        assert(pages_5("dmark"@) is Some);
    }
    assert(has_page("jobs"@)) by {
        reveal(has_page);
        assert(pages_5("jobs"@) is Some);
    }
    assert(has_page("wait"@)) by {
        reveal(has_page);
        assert(pages_5("wait"@) is Some);
    }
    assert(has_page("disown"@)) by {
        reveal(has_page);
        assert(pages_5("disown"@) is Some);
    }
    assert(has_page("source"@)) by {
        reveal(has_page);
        assert(pages_5("source"@) is Some);
    }
}

#[verifier::spinoff_prover]
proof fn lemma_words_4_are_lower()
    ensures
        forall|i: int| 0 <= i < words_4().len() ==> is_lower((#[trigger] words_4()[i]).name),
{
    assert(is_lower("eq"@)) by {
        reveal(is_lower);
        reveal_strlit("eq");
        assert(ascii_lower("eq"@) =~= "eq"@);
    }
    assert(is_lower("is"@)) by {
        reveal(is_lower);
        reveal_strlit("is");
        assert(ascii_lower("is"@) =~= "is"@);
    }
    assert(is_lower("exists"@)) by {
        reveal(is_lower);
        reveal_strlit("exists");
        assert(ascii_lower("exists"@) =~= "exists"@);
    }
    assert(is_lower("intersects"@)) by {
        reveal(is_lower);
        reveal_strlit("intersects");
        assert(ascii_lower("intersects"@) =~= "intersects"@);
    }
    assert(is_lower("isatty"@)) by {
        reveal(is_lower);
        reveal_strlit("isatty");
        assert(ascii_lower("isatty"@) =~= "isatty"@);
    }
    assert(is_lower("and"@)) by {
        reveal(is_lower);
        reveal_strlit("and");
        assert(ascii_lower("and"@) =~= "and"@);
    }
    assert(is_lower("or"@)) by {
        reveal(is_lower);
        reveal_strlit("or");
        assert(ascii_lower("or"@) =~= "or"@);
    }
    assert(is_lower("which"@)) by {
        reveal(is_lower);
        reveal_strlit("which");
        assert(ascii_lower("which"@) =~= "which"@);
    }
    assert(is_lower("type"@)) by {
        reveal(is_lower);
        reveal_strlit("type");
        assert(ascii_lower("type"@) =~= "type"@);
    }
    assert(is_lower("eval"@)) by {
        reveal(is_lower);
        reveal_strlit("eval");
        assert(ascii_lower("eval"@) =~= "eval"@);
    }
    assert(is_lower("pvar"@)) by {
        reveal(is_lower);
        reveal_strlit("pvar");
        assert(ascii_lower("pvar"@) =~= "pvar"@);
    }
    assert(is_lower("dmark"@)) by {
        reveal(is_lower);
        reveal_strlit("dmark");
        assert(ascii_lower("dmark"@) =~= "dmark"@);
    }
    assert(is_lower("jobs"@)) by {
        reveal(is_lower);
        reveal_strlit("jobs");
        assert(ascii_lower("jobs"@) =~= "jobs"@);
    }
    assert(is_lower("wait"@)) by {
        reveal(is_lower);
        reveal_strlit("wait");
        assert(ascii_lower("wait"@) =~= "wait"@);
    }
    assert(is_lower("disown"@)) by {
        reveal(is_lower);
        reveal_strlit("disown");
        assert(ascii_lower("disown"@) =~= "disown"@);
    }
    assert(is_lower("source"@)) by {
        reveal(is_lower);
        reveal_strlit("source");
        assert(ascii_lower("source"@) =~= "source"@);
    }
}

#[verifier::spinoff_prover]
proof fn lemma_words_5_have_pages()
    ensures
        forall|i: int| 0 <= i < words_5().len() ==> has_page((#[trigger] words_5()[i]).name),
{
    assert(has_page("highlight"@)) by {
        reveal(has_page);
        assert(pages_5("highlight"@) is Some);
    }
    assert(has_page("cls"@)) by {
        reveal(has_page);
        assert(pages_5("cls"@) is Some);
    }
    assert(has_page("from-json"@)) by {
        reveal(has_page);
        assert(pages_5("from-json"@) is Some);
    }
    assert(has_page("select"@)) by {
        reveal(has_page);
        assert(pages_5("select"@) is Some);
    }
    assert(has_page("where"@)) by {
        reveal(has_page);
        assert(pages_5("where"@) is Some);
    }
    assert(has_page("filter"@)) by {
        reveal(has_page);
        assert(pages_5("filter"@) is Some);
    }
    assert(has_page("to-json"@)) by {
        reveal(has_page);
        assert(pages_6("to-json"@) is Some);
    }
    assert(has_page("from-csv"@)) by {
        reveal(has_page);
        assert(pages_5("from-csv"@) is Some);
    }
    assert(has_page("to-csv"@)) by {
        reveal(has_page);
        assert(pages_6("to-csv"@) is Some);
    }
    assert(has_page("date-column"@)) by {
        reveal(has_page);
        assert(pages_6("date-column"@) is Some);
    }
    assert(has_page("pg-connect"@)) by {
        reveal(has_page);
        assert(pages_6("pg-connect"@) is Some);
    }
    assert(has_page("elevate"@)) by {
        reveal(has_page);
        assert(pages_6("elevate"@) is Some);
    }
    assert(has_page("is-elevated"@)) by {
        reveal(has_page);
        assert(pages_6("is-elevated"@) is Some);
    }
}

#[verifier::spinoff_prover]
proof fn lemma_words_5_are_lower()
    ensures
        forall|i: int| 0 <= i < words_5().len() ==> is_lower((#[trigger] words_5()[i]).name),
{
    assert(is_lower("highlight"@)) by {
        reveal(is_lower);
        reveal_strlit("highlight");
        assert(ascii_lower("highlight"@) =~= "highlight"@);
    }
    assert(is_lower("cls"@)) by {
        reveal(is_lower);
        reveal_strlit("cls");
        assert(ascii_lower("cls"@) =~= "cls"@);
    }
    assert(is_lower("from-json"@)) by {
        reveal(is_lower);
        reveal_strlit("from-json");
        assert(ascii_lower("from-json"@) =~= "from-json"@);
    }
    assert(is_lower("select"@)) by {
        reveal(is_lower);
        reveal_strlit("select");
        assert(ascii_lower("select"@) =~= "select"@);
    }
    assert(is_lower("where"@)) by {
        reveal(is_lower);
        reveal_strlit("where");
        assert(ascii_lower("where"@) =~= "where"@);
    }
    assert(is_lower("filter"@)) by {
        reveal(is_lower);
        reveal_strlit("filter");
        assert(ascii_lower("filter"@) =~= "filter"@);
    }
    assert(is_lower("to-json"@)) by {
        reveal(is_lower);
        reveal_strlit("to-json");
        assert(ascii_lower("to-json"@) =~= "to-json"@);
    }
    assert(is_lower("from-csv"@)) by {
        reveal(is_lower);
        reveal_strlit("from-csv");
        assert(ascii_lower("from-csv"@) =~= "from-csv"@);
    }
    assert(is_lower("to-csv"@)) by {
        reveal(is_lower);
        reveal_strlit("to-csv");
        assert(ascii_lower("to-csv"@) =~= "to-csv"@);
    }
    assert(is_lower("date-column"@)) by {
        reveal(is_lower);
        reveal_strlit("date-column");
        assert(ascii_lower("date-column"@) =~= "date-column"@);
    }
    assert(is_lower("pg-connect"@)) by {
        reveal(is_lower);
        reveal_strlit("pg-connect");
        assert(ascii_lower("pg-connect"@) =~= "pg-connect"@);
    }
    assert(is_lower("elevate"@)) by {
        reveal(is_lower);
        reveal_strlit("elevate");
        assert(ascii_lower("elevate"@) =~= "elevate"@);
    }
    assert(is_lower("is-elevated"@)) by {
        reveal(is_lower);
        reveal_strlit("is-elevated");
        assert(ascii_lower("is-elevated"@) =~= "is-elevated"@);
    }
}

/// Every word that the shell knows has a page of its own, which `help` shows.
pub proof fn law_every_word_has_help(i: int)
    requires
        0 <= i < words().len(),
    ensures
        focused(words()[i].name) is Some,
        help(Some(words()[i].name)) is Ok,
{
    let w = words();
    assert(words_1().len() == 16);
    assert(words_2().len() == 16);
    assert(words_3().len() == 16);
    assert(words_4().len() == 16);
    assert(words_5().len() == 13);
    if 0 <= i < 16 {
        lemma_words_1_have_pages();
        lemma_words_1_are_lower();
        assert(w[i] == words_1()[i - 0]);
    }
    if 16 <= i < 32 {
        lemma_words_2_have_pages();
        lemma_words_2_are_lower();
        assert(w[i] == words_2()[i - 16]);
    }
    if 32 <= i < 48 {
        lemma_words_3_have_pages();
        lemma_words_3_are_lower();
        assert(w[i] == words_3()[i - 32]);
    }
    if 48 <= i < 64 {
        lemma_words_4_have_pages();
        lemma_words_4_are_lower();
        assert(w[i] == words_4()[i - 48]);
    }
    if 64 <= i < 77 {
        lemma_words_5_have_pages();
        lemma_words_5_are_lower();
        assert(w[i] == words_5()[i - 64]);
    }
    lemma_page_is_shown(w[i].name);
}

proof fn lemma_codes_tell(c: char, d: char)
    requires
        c as u32 == d as u32,
    ensures
        c == d,
{
}

/// Help does not mind in which case the ASCII letters of a topic are written.
pub proof fn law_topics_go_by_letters_not_case(t: Seq<char>, u: Seq<char>)
    requires
        t.len() == u.len(),
        forall|i: int|
            0 <= i < t.len() ==> #[trigger] t[i] == u[i] || (65 <= t[i] as u32 <= 90 && u[i] as u32
                == t[i] as u32 + 32),
    ensures
        help(Some(t)) == help(Some(u)),
{
    assert forall|i: int| 0 <= i < t.len() implies ascii_lower(t)[i] == ascii_lower(u)[i] by {
        let c = t[i];
        let d = u[i];
        assert(c == d || (65 <= c as u32 <= 90 && d as u32 == c as u32 + 32));
        if c != d {
            assert(97 <= d as u32 <= 122);
            assert(ascii_lower(u)[i] == u[i]);
            assert((c as u32 + 32) as u8 == c as u32 + 32);
            let e = ascii_lower(t)[i];
            assert(e as u32 == d as u32);
            lemma_codes_tell(e, d);
        }
    }
    assert(ascii_lower(t) =~= ascii_lower(u));
}

} // verus!
