//! The command line.
use vstd::prelude::*;

use crate::db::{Graph, GraphV};
use crate::query::{self, Shortener, Side};
use crate::text;

verus! {

/// A question that can be asked on the command line.
#[derive(Clone, Copy, PartialEq, Eq, Structural, Debug)]
pub enum Question {
    Find,
    Refs,
    Callers,
    Callees,
    Hierarchy,
    Members,
    Outline,
}

/// What the command line asks for.
pub enum Command {
    /// Bring the graph in the file `db` to what the store says.
    Update { store: String, db: String, full: bool },
    /// Say how many rows the tables have.
    Stats { db: String },
    /// Answer a question.
    Ask { question: Question, db: String, query: String, limit: usize },
}

pub enum CommandV {
    Update { store: Seq<char>, db: Seq<char>, full: bool },
    Stats { db: Seq<char> },
    Ask { question: Question, db: Seq<char>, query: Seq<char>, limit: usize },
}

impl View for Command {
    type V = CommandV;

    open spec fn view(&self) -> CommandV {
        match self {
            Command::Update { store, db, full } => CommandV::Update {
                store: store@,
                db: db@,
                full: *full,
            },
            Command::Stats { db } => CommandV::Stats { db: db@ },
            Command::Ask { question, db, query, limit } => CommandV::Ask {
                question: *question,
                db: db@,
                query: query@,
                limit: *limit,
            },
        }
    }
}

/// How many lines an answer has at most where nothing else is asked for.
pub const DEFAULT_LIMIT: usize = 50;

/// The question that a word asks.
pub open spec fn question_of(word: Seq<char>) -> Option<Question> {
    if word == "find"@ {
        Some(Question::Find)
    } else if word == "refs"@ {
        Some(Question::Refs)
    } else if word == "callers"@ {
        Some(Question::Callers)
    } else if word == "callees"@ {
        Some(Question::Callees)
    } else if word == "hierarchy"@ {
        Some(Question::Hierarchy)
    } else if word == "members"@ {
        Some(Question::Members)
    } else if word == "outline"@ {
        Some(Question::Outline)
    } else {
        None
    }
}

/// The limit that a word spells. One that cannot be read, or is too great, counts
/// as not given.
pub open spec fn limit_of(word: Seq<char>) -> usize {
    match text::unsigned_number(word) {
        Some(n) if n <= usize::MAX => n as usize,
        _ => DEFAULT_LIMIT,
    }
}

/// What the arguments ask for. There is nothing where the first is no command,
/// or one that it needs is missing.
pub open spec fn asked(args: Seq<Seq<char>>) -> Option<CommandV> {
    if args.len() == 0 {
        None
    } else if args[0] == "update"@ {
        if args.len() > 2 {
            Some(
                CommandV::Update {
                    store: args[1],
                    db: args[2],
                    full: args.contains("--full"@),
                },
            )
        } else {
            None
        }
    } else if args[0] == "stats"@ {
        if args.len() > 1 {
            Some(CommandV::Stats { db: args[1] })
        } else {
            None
        }
    } else {
        match question_of(args[0]) {
            Some(question) => if args.len() > 2 {
                Some(
                    CommandV::Ask {
                        question,
                        db: args[1],
                        query: args[2],
                        limit: if args.len() > 3 {
                            limit_of(args[3])
                        } else {
                            DEFAULT_LIMIT
                        },
                    },
                )
            } else {
                None
            },
            None => None,
        }
    }
}

/// What is said where the arguments ask for nothing.
pub open spec fn usage_text() -> Seq<char> {
    "usage:\n  symgraph update <store-dir> <db-path> [--full]\n  symgraph stats <db-path>\n  symgraph find|refs|callers|callees|hierarchy|members|outline <db-path> <query> [limit]"@
}

fn find_question(word: &str) -> (r: Option<Question>)
    ensures
        r == question_of(word@),
{
    if text::same_text(word, "find") {
        Some(Question::Find)
    } else if text::same_text(word, "refs") {
        Some(Question::Refs)
    } else if text::same_text(word, "callers") {
        Some(Question::Callers)
    } else if text::same_text(word, "callees") {
        Some(Question::Callees)
    } else if text::same_text(word, "hierarchy") {
        Some(Question::Hierarchy)
    } else if text::same_text(word, "members") {
        Some(Question::Members)
    } else if text::same_text(word, "outline") {
        Some(Question::Outline)
    } else {
        None
    }
}

fn has_word(args: &Vec<String>, word: &str) -> (r: bool)
    ensures
        r == text::texts(args@).contains(word@),
{
    let ghost all = text::texts(args@);
    let mut i: usize = 0;
    while i < args.len()
        invariant
            all == text::texts(args@),
            i <= args.len(),
            forall|k: int| 0 <= k < i ==> all[k] != word@,
        decreases args.len() - i,
    {
        if text::same_text(args[i].as_str(), word) {
            assert(all[i as int] == word@);
            return true;
        }
        i = i + 1;
    }
    false
}

/// What the arguments ask for, without the name of the program, or what is said
/// where they ask for nothing.
pub fn parse_args(args: &Vec<String>) -> (r: Result<Command, String>)
    ensures
        match r {
            Ok(c) => asked(text::texts(args@)) == Some(c@),
            Err(msg) => asked(text::texts(args@)) is None && msg@ == usage_text(),
        },
{
    let usage =
        "usage:\n  symgraph update <store-dir> <db-path> [--full]\n  symgraph stats <db-path>\n  symgraph find|refs|callers|callees|hierarchy|members|outline <db-path> <query> [limit]".to_owned();
    let n = args.len();
    if n == 0 {
        return Err(usage);
    }
    let word = args[0].as_str();
    if text::same_text(word, "update") {
        if n > 2 {
            return Ok(
                Command::Update {
                    store: args[1].clone(),
                    db: args[2].clone(),
                    full: has_word(args, "--full"),
                },
            );
        }
        return Err(usage);
    }
    if text::same_text(word, "stats") {
        if n > 1 {
            return Ok(Command::Stats { db: args[1].clone() });
        }
        return Err(usage);
    }
    match find_question(word) {
        Some(question) => {
            if n > 2 {
                let limit = if n > 3 {
                    match text::parse_unsigned(args[3].as_str()) {
                        Some(limit) => limit,
                        None => DEFAULT_LIMIT,
                    }
                } else {
                    DEFAULT_LIMIT
                };
                Ok(
                    Command::Ask {
                        question,
                        db: args[1].clone(),
                        query: args[2].clone(),
                        limit,
                    },
                )
            } else {
                Err(usage)
            }
        },
        None => Err(usage),
    }
}

/// The answer to a question.
pub open spec fn answered(
    g: GraphV,
    sh: Seq<(Seq<char>, Seq<char>)>,
    question: Question,
    query: Seq<char>,
    limit: nat,
) -> Seq<char> {
    let targets = query::targets(g, sh, query);
    match question {
        Question::Find => query::found(g, sh, query, limit),
        Question::Refs => query::answer(targets, query::ref_block(g, sh, limit)),
        Question::Callers => query::answer(
            targets,
            query::related_block(g, sh, "callers/referencers of "@, Side::Occurring, limit),
        ),
        Question::Callees => query::answer(
            targets,
            query::related_block(g, sh, "callees/uses inside "@, Side::Related, limit),
        ),
        Question::Hierarchy => query::answer(targets, query::hierarchy_block(g, limit)),
        Question::Members => query::answer(
            query::member_targets(targets),
            query::members_block(g, sh, limit),
        ),
        Question::Outline => query::outlined(g, sh, query, limit),
    }
}

/// The answer to a question.
pub fn ask(graph: &Graph, sh: &Shortener, question: Question, query: &str, limit: usize) -> (r:
    String)
    requires
        graph.wf(),
    ensures
        r@ == answered(graph@, sh@, question, query@, limit as nat),
{
    match question {
        Question::Find => query::find(graph, sh, query, limit),
        Question::Refs => query::refs(graph, sh, query, limit),
        Question::Callers => query::callers(graph, sh, query, limit),
        Question::Callees => query::callees(graph, sh, query, limit),
        Question::Hierarchy => query::hierarchy(graph, sh, query, limit),
        Question::Members => query::members(graph, sh, query, limit),
        Question::Outline => query::outline(graph, sh, query, limit),
    }
}

} // verus!
