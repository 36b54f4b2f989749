use vstd::prelude::*;

use crate::lexer::{Token, TokenType, token_values};
use crate::text::push_text;

verus! {

/// Where every heredoc's body is meant to be stored. Reading the body is not
/// done: a heredoc records this path and its delimiter, nothing more.
pub const HEREDOC_PLACEHOLDER: &'static str = "/tmp/rushell_heredoc";

/// A file that a command's output goes to.
#[derive(Debug)]
pub struct OutputRedirect {
    pub filename: String,
    /// Whether the file is appended to rather than truncated.
    pub append: bool,
}

/// A heredoc of a command: the file its body would be stored in, and the word
/// that would end it.
#[derive(Debug)]
pub struct Heredoc {
    pub temp_file: String,
    pub delimiter: String,
}

/// One stage of a pipeline.
#[derive(Debug)]
pub struct Command {
    /// The program to run; empty while no word has been read for it.
    pub program: String,
    pub arguments: Vec<String>,
    /// Files to read standard input from.
    pub input_files: Vec<String>,
    pub output_redirects: Vec<OutputRedirect>,
    pub heredocs: Vec<Heredoc>,
}

/// `Command` as a value.
pub struct CommandView {
    pub program: Seq<char>,
    pub arguments: Seq<Seq<char>>,
    pub input_files: Seq<Seq<char>>,
    pub output_redirects: Seq<(Seq<char>, bool)>,
    pub heredocs: Seq<(Seq<char>, Seq<char>)>,
}

pub open spec fn strings(v: Seq<String>) -> Seq<Seq<char>> {
    v.map_values(|s: String| s@)
}

impl View for Command {
    type V = CommandView;

    open spec fn view(&self) -> CommandView {
        CommandView {
            program: self.program@,
            arguments: strings(self.arguments@),
            input_files: strings(self.input_files@),
            output_redirects: self.output_redirects@.map_values(
                |o: OutputRedirect| (o.filename@, o.append),
            ),
            heredocs: self.heredocs@.map_values(|h: Heredoc| (h.temp_file@, h.delimiter@)),
        }
    }
}

pub open spec fn commands(v: Seq<Command>) -> Seq<CommandView> {
    v.map_values(|c: Command| c@)
}

/// Why a token sequence is not a pipeline that can be run.
#[derive(Debug, Clone, Copy, PartialEq, Eq, Structural)]
pub enum ParseError {
    /// A token that pipelines do not give a meaning to (`||`, `&`, `&&`, `;`,
    /// parentheses).
    UnsupportedToken(TokenType),
    /// A redirection operator ends the sequence, with no file after it.
    MissingRedirectionTarget,
}

/// How an operator token is written.
pub open spec fn operator_text(k: TokenType) -> Seq<char> {
    match k {
        TokenType::Word => ""@,
        TokenType::Pipe => "|"@,
        TokenType::Ampersand => "&"@,
        TokenType::Less => "<"@,
        TokenType::Great => ">"@,
        TokenType::LessLess => "<<"@,
        TokenType::GreatGreat => ">>"@,
        TokenType::Semicolon => ";"@,
        TokenType::Or => "||"@,
        TokenType::And => "&&"@,
        TokenType::LeftParen => "("@,
        TokenType::RightParen => ")"@,
    }
}

fn operator_str(k: TokenType) -> (r: &'static str)
    ensures
        r@ == operator_text(k),
{
    match k {
        TokenType::Word => "",
        TokenType::Pipe => "|",
        TokenType::Ampersand => "&",
        TokenType::Less => "<",
        TokenType::Great => ">",
        TokenType::LessLess => "<<",
        TokenType::GreatGreat => ">>",
        TokenType::Semicolon => ";",
        TokenType::Or => "||",
        TokenType::And => "&&",
        TokenType::LeftParen => "(",
        TokenType::RightParen => ")",
    }
}

impl ParseError {
    /// The diagnostic to show for the error.
    pub fn message(&self) -> (m: String)
        ensures
            m@ == match *self {
                ParseError::UnsupportedToken(k) => "unsupported token `"@ + operator_text(k) + "`"@,
                ParseError::MissingRedirectionTarget => "missing redirection target"@,
            },
    {
        match self {
            ParseError::UnsupportedToken(k) => {
                let mut m = String::new();
                push_text(&mut m, "unsupported token `");
                push_text(&mut m, operator_str(*k));
                push_text(&mut m, "`");
                m
            },
            ParseError::MissingRedirectionTarget => "missing redirection target".to_owned(),
        }
    }
}

pub open spec fn empty_command() -> CommandView {
    CommandView {
        program: seq![],
        arguments: seq![],
        input_files: seq![],
        output_redirects: seq![],
        heredocs: seq![],
    }
}

/// A word read into a command: its program if it has none yet, else an argument.
pub open spec fn add_word(c: CommandView, w: Seq<char>) -> CommandView {
    if c.program.len() == 0 {
        CommandView { program: w, ..c }
    } else {
        CommandView { arguments: c.arguments.push(w), ..c }
    }
}

pub open spec fn is_redirection(k: TokenType) -> bool {
    k == TokenType::Less || k == TokenType::LessLess || k == TokenType::Great || k
        == TokenType::GreatGreat
}

/// A redirection of kind `k` with operand `w`, recorded in a command.
pub open spec fn redirect(c: CommandView, k: TokenType, w: Seq<char>) -> CommandView {
    if k == TokenType::Less {
        CommandView { input_files: c.input_files.push(w), ..c }
    } else if k == TokenType::LessLess {
        CommandView {
            input_files: c.input_files.push(HEREDOC_PLACEHOLDER@),
            heredocs: c.heredocs.push((HEREDOC_PLACEHOLDER@, w)),
            ..c
        }
    } else {
        CommandView { output_redirects: c.output_redirects.push((w, k == TokenType::GreatGreat)), ..c }
    }
}

/// The pipeline read from position `i` of `ts` on, with `cur` the command being
/// built and `done` those already ended by a pipe.
pub open spec fn parse_from(
    ts: Seq<(Seq<char>, TokenType)>,
    i: int,
    cur: CommandView,
    done: Seq<CommandView>,
) -> Result<Seq<CommandView>, ParseError>
    decreases ts.len() - i,
{
    if i < 0 || i >= ts.len() {
        Ok(done.push(cur))
    } else {
        let k = ts[i].1;
        if k == TokenType::Word {
            parse_from(ts, i + 1, add_word(cur, ts[i].0), done)
        } else if is_redirection(k) {
            if i + 1 >= ts.len() {
                Err(ParseError::MissingRedirectionTarget)
            } else {
                parse_from(ts, i + 2, redirect(cur, k, ts[i + 1].0), done)
            }
        } else if k == TokenType::Pipe {
            parse_from(ts, i + 1, empty_command(), done.push(cur))
        } else {
            Err(ParseError::UnsupportedToken(k))
        }
    }
}

/// The pipeline that a token sequence describes.
pub open spec fn parse_spec(ts: Seq<(Seq<char>, TokenType)>) -> Result<Seq<CommandView>, ParseError> {
    parse_from(ts, 0, empty_command(), seq![])
}


proof fn lemma_unsupported_from(
    ts: Seq<(Seq<char>, TokenType)>,
    k: int,
    i: int,
    cur: CommandView,
    done: Seq<CommandView>,
)
    requires
        0 <= i <= k < ts.len(),
        forall|j: int| 0 <= j < ts.len() ==> !is_redirection(#[trigger] ts[j].1),
        ts[k].1 != TokenType::Word && ts[k].1 != TokenType::Pipe,
        forall|j: int| 0 <= j < k ==> (#[trigger] ts[j].1 == TokenType::Word || ts[j].1 == TokenType::Pipe),
    ensures
        parse_from(ts, i, cur, done) == Err::<Seq<CommandView>, ParseError>(
            ParseError::UnsupportedToken(ts[k].1),
        ),
    decreases k - i,
{
    if i < k {
        if ts[i].1 == TokenType::Word {
            lemma_unsupported_from(ts, k, i + 1, add_word(cur, ts[i].0), done);
        } else {
            lemma_unsupported_from(ts, k, i + 1, empty_command(), done.push(cur));
        }
    } else {
        assert(!is_redirection(ts[k].1));
    }
}

/// Where no redirection takes the next token as its operand, a token that is
/// neither a word nor `|` (`||`, `&`, `&&`, `;`, a parenthesis) makes parsing
/// fail with an error that names the first such token.
pub proof fn lemma_unsupported_token(ts: Seq<(Seq<char>, TokenType)>, k: int)
    requires
        0 <= k < ts.len(),
        forall|j: int| 0 <= j < ts.len() ==> !is_redirection(#[trigger] ts[j].1),
        ts[k].1 != TokenType::Word && ts[k].1 != TokenType::Pipe,
        forall|j: int| 0 <= j < k ==> (#[trigger] ts[j].1 == TokenType::Word || ts[j].1 == TokenType::Pipe),
    ensures
        parse_spec(ts) == Err::<Seq<CommandView>, ParseError>(ParseError::UnsupportedToken(ts[k].1)),
{
    lemma_unsupported_from(ts, k, 0, empty_command(), seq![]);
}

impl Command {
    /// A command with nothing in it yet.
    pub fn new() -> (c: Command)
        ensures
            c@ == empty_command(),
    {
        let c = Command {
            program: String::new(),
            arguments: Vec::new(),
            input_files: Vec::new(),
            output_redirects: Vec::new(),
            heredocs: Vec::new(),
        };
        proof {
            assert(c@.arguments =~= seq![]);
            assert(c@.input_files =~= seq![]);
            assert(c@.output_redirects =~= seq![]);
            assert(c@.heredocs =~= seq![]);
        }
        c
    }

    /// Reads a word into the command, as `add_word` says.
    fn add_word(&mut self, w: String)
        ensures
            final(self)@ == add_word(old(self)@, w@),
    {
        if self.program.as_str().is_empty() {
            self.program = w;
        } else {
            let ghost before = self.arguments@;
            self.arguments.push(w);
            proof {
                assert(strings(self.arguments@) =~= strings(before).push(w@));
            }
        }
    }

    /// Records a redirection of kind `k` to `target`, as `redirect` says.
    fn redirect(&mut self, k: TokenType, target: String)
        requires
            is_redirection(k),
        ensures
            final(self)@ == redirect(old(self)@, k, target@),
    {
        if k == TokenType::Less {
            let ghost before = self.input_files@;
            self.input_files.push(target);
            proof {
                assert(strings(self.input_files@) =~= strings(before).push(target@));
            }
        } else if k == TokenType::LessLess {
            let ghost files = self.input_files@;
            let ghost docs = self.heredocs@;
            self.input_files.push(HEREDOC_PLACEHOLDER.to_owned());
            let h = Heredoc { temp_file: HEREDOC_PLACEHOLDER.to_owned(), delimiter: target };
            self.heredocs.push(h);
            proof {
                assert(strings(self.input_files@) =~= strings(files).push(HEREDOC_PLACEHOLDER@));
                assert(self.heredocs@.map_values(|h: Heredoc| (h.temp_file@, h.delimiter@))
                    =~= docs.map_values(|h: Heredoc| (h.temp_file@, h.delimiter@)).push(
                    (HEREDOC_PLACEHOLDER@, target@),
                ));
            }
        } else {
            let ghost outs = self.output_redirects@;
            let o = OutputRedirect { filename: target, append: k == TokenType::GreatGreat };
            self.output_redirects.push(o);
            proof {
                assert(self.output_redirects@.map_values(|o: OutputRedirect| (o.filename@, o.append))
                    =~= outs.map_values(|o: OutputRedirect| (o.filename@, o.append)).push(
                    (target@, k == TokenType::GreatGreat),
                ));
            }
        }
    }
}

/// Groups tokens into the commands of a pipeline: words give each command its
/// program and then its arguments, a redirection operator takes the next token
/// as its file (or heredoc delimiter), and `|` ends a command. Any other
/// operator is refused, as is a redirection with nothing after it.
pub fn parse(tokens: &Vec<Token>) -> (r: Result<Vec<Command>, ParseError>)
    ensures
        match r {
            Ok(v) => parse_spec(token_values(tokens@)) == Ok::<Seq<CommandView>, ParseError>(
                commands(v@),
            ),
            Err(e) => parse_spec(token_values(tokens@)) == Err::<Seq<CommandView>, ParseError>(e),
        },
{
    let ghost ts = token_values(tokens@);
    let mut done: Vec<Command> = Vec::new();
    let mut cur = Command::new();
    let mut i: usize = 0;
    proof {
        assert(commands(done@) =~= seq![]);
    }
    while i < tokens.len()
        invariant
            ts == token_values(tokens@),
            i <= tokens@.len(),
            parse_spec(ts) == parse_from(ts, i as int, cur@, commands(done@)),
        decreases tokens@.len() - i,
    {
        let k = tokens[i].ttype;
        if k == TokenType::Word {
            cur.add_word(tokens[i].literal.clone());
            i = i + 1;
        } else if k == TokenType::Less || k == TokenType::LessLess || k == TokenType::Great || k
            == TokenType::GreatGreat {
            if i + 1 >= tokens.len() {
                return Err(ParseError::MissingRedirectionTarget);
            }
            cur.redirect(k, tokens[i + 1].literal.clone());
            i = i + 2;
        } else if k == TokenType::Pipe {
            let ghost before = done@;
            done.push(cur);
            cur = Command::new();
            proof {
                assert(commands(done@) =~= commands(before).push(done@.last()@));
            }
            i = i + 1;
        } else {
            return Err(ParseError::UnsupportedToken(k));
        }
    }
    let ghost before = done@;
    let ghost last = cur@;
    done.push(cur);
    proof {
        assert(commands(done@) =~= commands(before).push(last));
    }
    Ok(done)
}

} // verus!
