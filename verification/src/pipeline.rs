//! Pipelines and redirections.
//!
//! `|`, `^|` and `&|` hand a command's standard output, its standard error or
//! both to the next command; `>`, `>>`, `^>` and `&>` send one command's
//! streams to a file; a trailing `&` or `&!` puts the whole pipeline into the
//! background or disowns it. An operator is a token of its own.

use crate::text;
use crate::text::same;
use crate::token;
use crate::token::{Token, TokenView};
use vstd::prelude::*;

verus! {

/// What a pipe carries.
#[derive(Clone, Copy, PartialEq, Eq, Debug, Structural)]
pub enum PipeKind {
    /// `|`
    Stdout,
    /// `^|`
    Stderr,
    /// `&|`
    Combined,
}

/// What a redirection carries.
#[derive(Clone, Copy, PartialEq, Eq, Debug, Structural)]
pub enum Stream {
    /// `>` and `>>`
    Stdout,
    /// `^>`
    Stderr,
    /// `&>`
    Combined,
}

/// A redirection to a file.
#[derive(Clone, Debug)]
pub struct Redirect {
    pub stream: Stream,
    pub path: String,
    pub append: bool,
}

/// What a redirection is.
#[verifier::ext_equal]
pub struct RedirectView {
    pub stream: Stream,
    pub path: Seq<char>,
    pub append: bool,
}

impl View for Redirect {
    type V = RedirectView;

    open spec fn view(&self) -> RedirectView {
        RedirectView { stream: self.stream, path: self.path@, append: self.append }
    }
}

/// What the redirections of a list are.
pub open spec fn redirect_views(list: Seq<Redirect>) -> Seq<RedirectView> {
    Seq::new(list.len(), |i: int| list[i]@)
}

/// One command of a pipeline.
#[derive(Clone, Debug)]
pub struct Stage {
    pub tokens: Vec<Token>,
    pub redirects: Vec<Redirect>,
}

/// What a stage is.
#[verifier::ext_equal]
pub struct StageView {
    pub tokens: Seq<TokenView>,
    pub redirects: Seq<RedirectView>,
}

impl View for Stage {
    type V = StageView;

    open spec fn view(&self) -> StageView {
        StageView {
            tokens: token::token_views(self.tokens@),
            redirects: redirect_views(self.redirects@),
        }
    }
}

/// What the stages of a list are.
pub open spec fn stage_views(list: Seq<Stage>) -> Seq<StageView> {
    Seq::new(list.len(), |i: int| list[i]@)
}

/// A parsed line.
#[derive(Debug)]
pub struct Pipeline {
    pub stages: Vec<Stage>,
    pub pipes: Vec<PipeKind>,
    pub background: bool,
    pub disown: bool,
}

/// What a parsed line is.
#[verifier::ext_equal]
pub struct PipelineView {
    pub stages: Seq<StageView>,
    pub pipes: Seq<PipeKind>,
    pub background: bool,
    pub disown: bool,
}

impl View for Pipeline {
    type V = PipelineView;

    open spec fn view(&self) -> PipelineView {
        PipelineView {
            stages: stage_views(self.stages@),
            pipes: self.pipes@,
            background: self.background,
            disown: self.disown,
        }
    }
}

impl PipelineView {
    /// Whether the line is one plain command without pipes, redirections or a
    /// background mark.
    pub open spec fn trivial(self) -> bool {
        &&& self.stages.len() <= 1
        &&& self.pipes.len() == 0
        &&& !self.background
        &&& !self.disown
        &&& self.stages.len() == 0 || self.stages[0].redirects.len() == 0
    }
}

impl Pipeline {
    /// Whether the line is one plain command without pipes, redirections or a
    /// background mark.
    pub fn is_trivial(&self) -> (r: bool)
        ensures
            r == self@.trivial(),
    {
        if self.stages.len() > 1 || self.pipes.len() > 0 || self.background || self.disown {
            return false;
        }
        self.stages.len() == 0 || self.stages[0].redirects.len() == 0
    }
}

/// The kind of pipe that an operator writes.
pub open spec fn pipe_of(op: Seq<char>) -> Option<PipeKind> {
    if op == "|"@ {
        Some(PipeKind::Stdout)
    } else if op == "^|"@ {
        Some(PipeKind::Stderr)
    } else if op == "&|"@ {
        Some(PipeKind::Combined)
    } else {
        None
    }
}

/// The stream that an operator redirects, and whether it appends.
pub open spec fn redirect_of(op: Seq<char>) -> Option<(Stream, bool)> {
    if op == ">"@ {
        Some((Stream::Stdout, false))
    } else if op == ">>"@ {
        Some((Stream::Stdout, true))
    } else if op == "^>"@ {
        Some((Stream::Stderr, false))
    } else if op == "&>"@ {
        Some((Stream::Combined, false))
    } else {
        None
    }
}

/// The line read so far with the current stage at its end.
pub open spec fn closed(done: PipelineView, current: StageView) -> PipelineView {
    PipelineView { stages: done.stages.push(current), ..done }
}

/// A stage with nothing in it.
pub open spec fn no_stage() -> StageView {
    StageView { tokens: Seq::empty(), redirects: Seq::empty() }
}

/// The line that the tokens from `i` on complete: a pipe ends the current
/// stage; a redirection takes the token behind it as its path, and is dropped
/// when there is none; `&` and `&!` count only as the last token.
pub open spec fn parsed_from(
    tokens: Seq<TokenView>,
    i: int,
    done: PipelineView,
    current: StageView,
) -> PipelineView
    decreases tokens.len() - i,
{
    if i < 0 || i >= tokens.len() {
        closed(done, current)
    } else {
        let op = tokens[i].text;
        let last = i == tokens.len() - 1;
        if pipe_of(op) is Some {
            parsed_from(
                tokens,
                i + 1,
                PipelineView {
                    stages: done.stages.push(current),
                    pipes: done.pipes.push(pipe_of(op)->0),
                    ..done
                },
                no_stage(),
            )
        } else if redirect_of(op) is Some {
            if last {
                closed(done, current)
            } else {
                let redirect = RedirectView {
                    stream: (redirect_of(op)->0).0,
                    path: tokens[i + 1].text,
                    append: (redirect_of(op)->0).1,
                };
                parsed_from(
                    tokens,
                    i + 2,
                    done,
                    StageView { redirects: current.redirects.push(redirect), ..current },
                )
            }
        } else if op == "&"@ && last {
            closed(PipelineView { background: true, ..done }, current)
        } else if op == "&!"@ && last {
            closed(PipelineView { disown: true, ..done }, current)
        } else {
            parsed_from(
                tokens,
                i + 1,
                done,
                StageView { tokens: current.tokens.push(tokens[i]), ..current },
            )
        }
    }
}

/// A line with nothing in it.
pub open spec fn no_line() -> PipelineView {
    PipelineView { stages: Seq::empty(), pipes: Seq::empty(), background: false, disown: false }
}

/// The line that the tokens write.
pub open spec fn parsed(tokens: Seq<TokenView>) -> PipelineView {
    parsed_from(tokens, 0, no_line(), no_stage())
}

fn pipe_kind(op: &str) -> (r: Option<PipeKind>)
    ensures
        r == pipe_of(op@),
{
    if same(op, "|") {
        Some(PipeKind::Stdout)
    } else if same(op, "^|") {
        Some(PipeKind::Stderr)
    } else if same(op, "&|") {
        Some(PipeKind::Combined)
    } else {
        None
    }
}

fn redirect_kind(op: &str) -> (r: Option<(Stream, bool)>)
    ensures
        r == redirect_of(op@),
{
    if same(op, ">") {
        Some((Stream::Stdout, false))
    } else if same(op, ">>") {
        Some((Stream::Stdout, true))
    } else if same(op, "^>") {
        Some((Stream::Stderr, false))
    } else if same(op, "&>") {
        Some((Stream::Combined, false))
    } else {
        None
    }
}

/// Parses the tokens of a line.
pub fn parse(tokens: &[Token]) -> (r: Pipeline)
    ensures
        r@ == parsed(token::token_views(tokens@)),
{
    let ghost all = token::token_views(tokens@);
    let mut line = Pipeline {
        stages: Vec::new(),
        pipes: Vec::new(),
        background: false,
        disown: false,
    };
    let mut current = Stage { tokens: Vec::new(), redirects: Vec::new() };
    let mut i: usize = 0;
    assert(line@ =~= no_line());
    assert(current@ =~= no_stage());
    while i < tokens.len()
        invariant_except_break
            i <= tokens@.len(),
            parsed(all) == parsed_from(all, i as int, line@, current@),
        invariant
            all == token::token_views(tokens@),
        ensures
            parsed(all) == closed(line@, current@),
        decreases tokens@.len() - i,
    {
        let ghost before = line@;
        let ghost stage = current@;
        assert(all[i as int] == tokens@[i as int]@);
        let op = tokens[i].text.as_str();
        let last = i == tokens.len() - 1;
        if let Some(kind) = pipe_kind(op) {
            let mut ended = Stage { tokens: Vec::new(), redirects: Vec::new() };
            core::mem::swap(&mut ended, &mut current);
            line.stages.push(ended);
            line.pipes.push(kind);
            assert(current@ =~= no_stage());
            assert(stage_views(line.stages@) =~= before.stages.push(stage));
        } else if let Some((stream, append)) = redirect_kind(op) {
            if last {
                break;
            }
            i = i + 1;
            assert(all[i as int] == tokens@[i as int]@);
            let redirect = Redirect { stream, path: tokens[i].text.clone(), append };
            current.redirects.push(redirect);
            assert(redirect_views(current.redirects@) =~= stage.redirects.push(redirect@));
        } else if last && same(op, "&") {
            line.background = true;
            break;
        } else if last && same(op, "&!") {
            line.disown = true;
            break;
        } else {
            let t = tokens[i].copy();
            current.tokens.push(t);
            assert(token::token_views(current.tokens@) =~= stage.tokens.push(t@));
        }
        i = i + 1;
    }
    let ghost before = line@;
    let ghost stage = current@;
    line.stages.push(current);
    assert(stage_views(line.stages@) =~= before.stages.push(stage));
    line
}

/// A line has one stage more than it has pipes.
pub proof fn law_one_stage_more_than_pipes(tokens: Seq<TokenView>)
    ensures
        parsed(tokens).stages.len() == parsed(tokens).pipes.len() + 1,
{
    lemma_stage_count(tokens, 0, no_line(), no_stage());
}

proof fn lemma_stage_count(
    tokens: Seq<TokenView>,
    i: int,
    done: PipelineView,
    current: StageView,
)
    requires
        done.stages.len() == done.pipes.len(),
    ensures
        parsed_from(tokens, i, done, current).stages.len() == parsed_from(
            tokens,
            i,
            done,
            current,
        ).pipes.len() + 1,
    decreases tokens.len() - i,
{
    if 0 <= i < tokens.len() {
        let op = tokens[i].text;
        let last = i == tokens.len() - 1;
        if pipe_of(op) is Some {
            lemma_stage_count(
                tokens,
                i + 1,
                PipelineView {
                    stages: done.stages.push(current),
                    pipes: done.pipes.push(pipe_of(op)->0),
                    ..done
                },
                no_stage(),
            );
        } else if redirect_of(op) is Some {
            if !last {
                let redirect = RedirectView {
                    stream: (redirect_of(op)->0).0,
                    path: tokens[i + 1].text,
                    append: (redirect_of(op)->0).1,
                };
                lemma_stage_count(
                    tokens,
                    i + 2,
                    done,
                    StageView { redirects: current.redirects.push(redirect), ..current },
                );
            }
        } else if last && (op == "&"@ || op == "&!"@) {
        } else {
            lemma_stage_count(
                tokens,
                i + 1,
                done,
                StageView { tokens: current.tokens.push(tokens[i]), ..current },
            );
        }
    }
}

/// Tokens that hold no operator make a trivial line of just those tokens.
pub proof fn law_plain_command_is_trivial(tokens: Seq<TokenView>)
    requires
        forall|i: int|
            0 <= i < tokens.len() ==> pipe_of(#[trigger] tokens[i].text) is None && redirect_of(
                tokens[i].text,
            ) is None && tokens[i].text != "&"@ && tokens[i].text != "&!"@,
    ensures
        parsed(tokens).trivial(),
        parsed(tokens).stages == seq![StageView { tokens, redirects: Seq::empty() }],
{
    lemma_plain(tokens, 0);
    assert(tokens.take(0) =~= Seq::<TokenView>::empty());
    assert(parsed(tokens).stages =~= seq![StageView { tokens, redirects: Seq::empty() }]);
}

proof fn lemma_plain(tokens: Seq<TokenView>, i: int)
    requires
        0 <= i <= tokens.len(),
        forall|k: int|
            0 <= k < tokens.len() ==> pipe_of(#[trigger] tokens[k].text) is None && redirect_of(
                tokens[k].text,
            ) is None && tokens[k].text != "&"@ && tokens[k].text != "&!"@,
    ensures
        parsed_from(
            tokens,
            i,
            no_line(),
            StageView { tokens: tokens.take(i), redirects: Seq::empty() },
        ) == closed(no_line(), StageView { tokens, redirects: Seq::empty() }),
    decreases tokens.len() - i,
{
    if i < tokens.len() {
        lemma_plain(tokens, i + 1);
        assert(tokens.take(i + 1) =~= tokens.take(i).push(tokens[i]));
    } else {
        assert(tokens.take(i) =~= tokens);
    }
}

/// Whether a word is none of the marks of a line.
pub open spec fn is_plain_word(s: Seq<char>) -> bool {
    s != "|"@ && s != "^|"@ && s != "&|"@ && s != ">"@ && s != ">>"@ && s != "^>"@ && s != "&>"@ && s
        != "&"@ && s != "&!"@
}

proof fn lemma_marks_differ()
    ensures
        pipe_of("|"@) == Some(PipeKind::Stdout),
        pipe_of("^|"@) == Some(PipeKind::Stderr),
        pipe_of("&|"@) == Some(PipeKind::Combined),
        redirect_of(">"@) == Some((Stream::Stdout, false)) && pipe_of(">"@) is None,
        redirect_of(">>"@) == Some((Stream::Stdout, true)) && pipe_of(">>"@) is None,
        redirect_of("^>"@) == Some((Stream::Stderr, false)) && pipe_of("^>"@) is None,
        redirect_of("&>"@) == Some((Stream::Combined, false)) && pipe_of("&>"@) is None,
        pipe_of("&"@) is None && redirect_of("&"@) is None && pipe_of("&!"@) is None && redirect_of(
            "&!"@,
        ) is None && "&"@ != "&!"@,
{
    reveal_strlit("|");
    reveal_strlit("^|");
    reveal_strlit("&|");
    reveal_strlit(">");
    reveal_strlit(">>");
    reveal_strlit("^>");
    reveal_strlit("&>");
    reveal_strlit("&");
    reveal_strlit("&!");
    assert("|"@.len() == 1 && ">"@.len() == 1 && "&"@.len() == 1);
    assert("^|"@.len() == 2 && "&|"@.len() == 2 && ">>"@.len() == 2 && "^>"@.len() == 2 && "&>"@.len()
        == 2 && "&!"@.len() == 2);
    assert("|"@[0] == '|' && ">"@[0] == '>' && "&"@[0] == '&');
    assert("^|"@[0] == '^' && "^|"@[1] == '|');
    assert("&|"@[0] == '&' && "&|"@[1] == '|');
    assert(">>"@[0] == '>' && ">>"@[1] == '>');
    assert("^>"@[0] == '^' && "^>"@[1] == '>');
    assert("&>"@[0] == '&' && "&>"@[1] == '>');
    assert("&!"@[0] == '&' && "&!"@[1] == '!');
}

proof fn lemma_words_first(words: Seq<TokenView>, rest: Seq<TokenView>, i: int)
    requires
        0 <= i <= words.len(),
        forall|k: int| 0 <= k < words.len() ==> is_plain_word((#[trigger] words[k]).text),
    ensures
        parsed_from(
            words + rest,
            i,
            no_line(),
            StageView { tokens: words.take(i), redirects: Seq::empty() },
        ) == parsed_from(
            words + rest,
            words.len() as int,
            no_line(),
            StageView { tokens: words, redirects: Seq::empty() },
        ),
    decreases words.len() - i,
{
    if i < words.len() {
        lemma_words_first(words, rest, i + 1);
        assert((words + rest)[i] == words[i]);
        assert(is_plain_word(words[i].text));
        assert(words.take(i + 1) =~= words.take(i).push(words[i]));
    } else {
        assert(words.take(i) =~= words);
    }
}

proof fn lemma_moved_along(
    front: Seq<TokenView>,
    tokens: Seq<TokenView>,
    i: int,
    done: PipelineView,
    current: StageView,
    before: Seq<StageView>,
    pipes: Seq<PipeKind>,
)
    requires
        0 <= i,
    ensures
        ({
            let a = parsed_from(tokens, i, done, current);
            parsed_from(
                front + tokens,
                front.len() + i,
                PipelineView { stages: before + done.stages, pipes: pipes + done.pipes, ..done },
                current,
            ) == (PipelineView { stages: before + a.stages, pipes: pipes + a.pipes, ..a })
        }),
    decreases tokens.len() - i,
{
    let all = front + tokens;
    let there = PipelineView { stages: before + done.stages, pipes: pipes + done.pipes, ..done };
    assert(there.stages.push(current) =~= before + done.stages.push(current));
    if i < tokens.len() {
        assert(all[front.len() + i] == tokens[i]);
        let op = tokens[i].text;
        let last = i == tokens.len() - 1;
        if pipe_of(op) is Some {
            let next = PipelineView {
                stages: done.stages.push(current),
                pipes: done.pipes.push(pipe_of(op)->0),
                ..done
            };
            assert(there.pipes.push(pipe_of(op)->0) =~= pipes + next.pipes);
            lemma_moved_along(front, tokens, i + 1, next, no_stage(), before, pipes);
        } else if redirect_of(op) is Some {
            if !last {
                assert(all[front.len() + i + 1] == tokens[i + 1]);
                let redirect = RedirectView {
                    stream: (redirect_of(op)->0).0,
                    path: tokens[i + 1].text,
                    append: (redirect_of(op)->0).1,
                };
                lemma_moved_along(
                    front,
                    tokens,
                    i + 2,
                    done,
                    StageView { redirects: current.redirects.push(redirect), ..current },
                    before,
                    pipes,
                );
            }
        } else if last && (op == "&"@ || op == "&!"@) {
        } else {
            lemma_moved_along(
                front,
                tokens,
                i + 1,
                done,
                StageView { tokens: current.tokens.push(tokens[i]), ..current },
                before,
                pipes,
            );
        }
    }
}

/// A pipe between two parts of a line joins their stages: what stands before
/// it is one stage, the kind of the pipe is that of its mark, and the rest is
/// read as a line of its own.
pub proof fn law_pipes_join_stages(
    words: Seq<TokenView>,
    mark: TokenView,
    rest: Seq<TokenView>,
    kind: PipeKind,
)
    requires
        forall|k: int| 0 <= k < words.len() ==> is_plain_word((#[trigger] words[k]).text),
        mark.text == "|"@ && kind == PipeKind::Stdout || mark.text == "^|"@ && kind
            == PipeKind::Stderr || mark.text == "&|"@ && kind == PipeKind::Combined,
    ensures
        ({
            let whole = parsed(words + seq![mark] + rest);
            let tail = parsed(rest);
            &&& whole.stages == seq![StageView { tokens: words, redirects: Seq::empty() }]
                + tail.stages
            &&& whole.pipes == seq![kind] + tail.pipes
            &&& whole.background == tail.background
            &&& whole.disown == tail.disown
        }),
{
    lemma_marks_differ();
    let all = words + seq![mark] + rest;
    assert(all =~= words + (seq![mark] + rest));
    let front = words + seq![mark];
    assert(words.take(0) =~= Seq::<TokenView>::empty());
    lemma_words_first(words, seq![mark] + rest, 0);
    assert(all[words.len() as int] == mark);
    let stage = StageView { tokens: words, redirects: Seq::empty() };
    assert(no_line().stages.push(stage) =~= seq![stage] + no_line().stages);
    assert(no_line().pipes.push(kind) =~= seq![kind] + no_line().pipes);
    lemma_moved_along(front, rest, 0, no_line(), no_stage(), seq![stage], seq![kind]);
}

/// A redirection sends the stream of its mark to the path behind it, `>>`
/// behind what is there, and neither is a word of the command.
pub proof fn law_redirections_are_read(
    words: Seq<TokenView>,
    mark: TokenView,
    path: TokenView,
    stream: Stream,
    append: bool,
)
    requires
        forall|k: int| 0 <= k < words.len() ==> is_plain_word((#[trigger] words[k]).text),
        mark.text == ">"@ && stream == Stream::Stdout && !append || mark.text == ">>"@ && stream
            == Stream::Stdout && append || mark.text == "^>"@ && stream == Stream::Stderr && !append
            || mark.text == "&>"@ && stream == Stream::Combined && !append,
    ensures
        ({
            let line = parsed(words + seq![mark, path]);
            &&& line.stages == seq![
                StageView {
                    tokens: words,
                    redirects: seq![RedirectView { stream, path: path.text, append }],
                },
            ]
            &&& line.pipes.len() == 0
            &&& !line.background
            &&& !line.disown
        }),
{
    lemma_marks_differ();
    let all = words + seq![mark, path];
    assert(words.take(0) =~= Seq::<TokenView>::empty());
    lemma_words_first(words, seq![mark, path], 0);
    let n = words.len() as int;
    assert(all[n] == mark && all[n + 1] == path);
    let r = RedirectView { stream, path: path.text, append };
    assert(Seq::<RedirectView>::empty().push(r) =~= seq![r]);
    let stage = StageView { tokens: words, redirects: seq![r] };
    assert(parsed_from(all, n + 2, no_line(), stage) == closed(no_line(), stage));
    assert(no_line().stages.push(stage) =~= seq![stage]);
}

/// `&` at the end sends a line to the background, and `&!` lets it go; neither
/// is a word of the command.
pub proof fn law_background_marks_end_a_line(words: Seq<TokenView>, mark: TokenView)
    requires
        forall|k: int| 0 <= k < words.len() ==> is_plain_word((#[trigger] words[k]).text),
        mark.text == "&"@ || mark.text == "&!"@,
    ensures
        ({
            let line = parsed(words.push(mark));
            &&& line.stages == seq![StageView { tokens: words, redirects: Seq::empty() }]
            &&& line.pipes.len() == 0
            &&& line.background == (mark.text == "&"@)
            &&& line.disown == (mark.text == "&!"@)
        }),
{
    lemma_marks_differ();
    let all = words + seq![mark];
    assert(all =~= words.push(mark));
    assert(words.take(0) =~= Seq::<TokenView>::empty());
    lemma_words_first(words, seq![mark], 0);
    assert(all[words.len() as int] == mark);
    let stage = StageView { tokens: words, redirects: Seq::empty() };
    assert(no_line().stages.push(stage) =~= seq![stage]);
}

} // verus!
