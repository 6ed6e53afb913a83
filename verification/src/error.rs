//! Errors of the library, with the messages they are reported with.

use vstd::prelude::*;
use vstd::string::StringExecFns;

verus! {

/// What a pass refuses to do with input that is not valid Nix.
#[derive(Clone, Copy, PartialEq, Eq, Structural, Debug)]
pub enum Refusal {
    Reorder,
    Merge,
    RestyleNames,
    AdjustSpacing,
}

/// What went wrong.
#[derive(Debug)]
pub enum ErrorKind {
    /// The parser gave back no syntax tree.
    ParserFailed,
    /// The parser gave back a tree that does not nest as a syntax tree must.
    MalformedTree,
    /// The input does not parse as Nix.
    InvalidNix(Refusal),
    /// The output is not valid UTF-8.
    InvalidOutput,
    /// Rewriting would have changed the file's content.
    ContentChanged,
    /// The text is not TOML; the parser's message.
    InvalidToml(String),
    /// A configuration value or key is not what the schema allows; the
    /// message.
    Config(String),
}

/// An error, with the context it was met in, outermost first.
#[derive(Debug)]
pub struct Error {
    pub kind: ErrorKind,
    pub context: Vec<String>,
}

/// The word for what a pass refused to do.
pub open spec fn refusal_text(r: Refusal) -> Seq<char> {
    match r {
        Refusal::Reorder => "reorder"@,
        Refusal::Merge => "merge"@,
        Refusal::RestyleNames => "restyle names"@,
        Refusal::AdjustSpacing => "adjust spacing"@,
    }
}

/// The message an error of `kind` is reported with.
pub open spec fn kind_message(kind: ErrorKind) -> Seq<char> {
    match kind {
        ErrorKind::ParserFailed => "tree-sitter failed to parse input"@,
        ErrorKind::MalformedTree => "tree-sitter returned a syntax tree that does not nest"@,
        ErrorKind::InvalidNix(r) => "input is not valid Nix (parse error); refusing to "@ + refusal_text(r),
        ErrorKind::InvalidOutput => "internal error: the rewritten file is not valid UTF-8"@,
        ErrorKind::ContentChanged => "internal error: reordering would have changed the file's content; refusing to write output. Please report this as a pedantix bug."@,
        ErrorKind::InvalidToml(m) => m@,
        ErrorKind::Config(m) => m@,
    }
}

/// The first `k` contexts, each followed by `: `.
pub open spec fn context_prefix(context: Seq<String>, k: int) -> Seq<char>
    decreases k,
{
    if k <= 0 {
        seq![]
    } else {
        context_prefix(context, k - 1) + context[k - 1]@ + ": "@
    }
}

impl Error {
    pub fn new(kind: ErrorKind) -> (e: Error)
        ensures
            e.kind == kind,
            e.context@.len() == 0,
    {
        Error { kind, context: Vec::new() }
    }

    /// This error seen in `context`.
    pub fn with_context(self, context: String) -> (e: Error)
        ensures
            e.kind == self.kind,
            e.context@ == seq![context] + self.context@,
    {
        let mut c: Vec<String> = Vec::new();
        c.push(context);
        let mut rest = self.context;
        c.append(&mut rest);
        Error { kind: self.kind, context: c }
    }

    /// The message of the error itself, without context.
    pub fn root_message(&self) -> (r: String)
        ensures
            r@ == kind_message(self.kind),
    {
        match &self.kind {
            ErrorKind::ParserFailed => String::from_str("tree-sitter failed to parse input"),
            ErrorKind::MalformedTree => String::from_str(
                "tree-sitter returned a syntax tree that does not nest",
            ),
            ErrorKind::InvalidNix(r) => {
                let mut m = String::from_str("input is not valid Nix (parse error); refusing to ");
                m.append(
                    match r {
                        Refusal::Reorder => "reorder",
                        Refusal::Merge => "merge",
                        Refusal::RestyleNames => "restyle names",
                        Refusal::AdjustSpacing => "adjust spacing",
                    },
                );
                m
            },
            ErrorKind::InvalidOutput => String::from_str(
                "internal error: the rewritten file is not valid UTF-8",
            ),
            ErrorKind::ContentChanged => String::from_str(
                "internal error: reordering would have changed the file's content; refusing to write output. Please report this as a pedantix bug.",
            ),
            ErrorKind::InvalidToml(m) => m.clone(),
            ErrorKind::Config(m) => m.clone(),
        }
    }

    /// The outermost message: the first context, or the error's own message
    /// where there is none.
    pub fn message(&self) -> (r: String)
        ensures
            r@ == if self.context@.len() > 0 {
                self.context@[0]@
            } else {
                kind_message(self.kind)
            },
    {
        if self.context.len() > 0 {
            self.context[0].clone()
        } else {
            self.root_message()
        }
    }

    /// Every context and then the error's own message, joined by `: `.
    pub fn full_message(&self) -> (r: String)
        ensures
            r@ == context_prefix(self.context@, self.context@.len() as int) + kind_message(self.kind),
    {
        let mut m = String::from_str("");
        proof {
            reveal_strlit("");
        }
        let mut k: usize = 0;
        while k < self.context.len()
            invariant
                k <= self.context@.len(),
                m@ == context_prefix(self.context@, k as int),
            decreases self.context.len() - k,
        {
            m.append(self.context[k].as_str());
            m.append(": ");
            k += 1;
        }
        let root = self.root_message();
        m.append(root.as_str());
        m
    }
}

} // verus!
