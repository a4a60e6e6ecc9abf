use vstd::prelude::*;

use crate::token::opt_view;

verus! {

/// A simple command: its words, its leading assignments and its
/// redirections.
#[derive(Debug, Clone, PartialEq, Eq)]
pub struct Command {
    pub argv: Vec<String>,
    pub env_assigns: Vec<String>,
    pub infile: Option<String>,
    pub outfile: Option<String>,
    pub append_out: bool,
    pub heredoc_delim: Option<String>,
}

/// The mathematical model of a simple command.
#[verifier::ext_equal]
pub struct CommandV {
    pub argv: Seq<Seq<char>>,
    pub env_assigns: Seq<Seq<char>>,
    pub infile: Option<Seq<char>>,
    pub outfile: Option<Seq<char>>,
    pub append_out: bool,
    pub heredoc_delim: Option<Seq<char>>,
}

pub open spec fn strings_view(v: Seq<String>) -> Seq<Seq<char>> {
    v.map_values(|s: String| s@)
}

impl View for Command {
    type V = CommandV;

    open spec fn view(&self) -> CommandV {
        CommandV {
            argv: strings_view(self.argv@),
            env_assigns: strings_view(self.env_assigns@),
            infile: opt_view(self.infile),
            outfile: opt_view(self.outfile),
            append_out: self.append_out,
            heredoc_delim: opt_view(self.heredoc_delim),
        }
    }
}

/// The command with no word, no assignment and no redirection.
pub open spec fn empty_command() -> CommandV {
    CommandV {
        argv: Seq::empty(),
        env_assigns: Seq::empty(),
        infile: None,
        outfile: None,
        append_out: false,
        heredoc_delim: None,
    }
}

/// A command is empty when it has no word, no assignment and no
/// redirection (the append flag alone does not count).
pub open spec fn command_is_empty(c: CommandV) -> bool {
    c.argv.len() == 0 && c.env_assigns.len() == 0 && c.infile is None && c.outfile is None
        && c.heredoc_delim is None
}

impl Command {
    /// The empty command.
    pub fn new() -> (c: Self)
        ensures
            c@ == empty_command(),
    {
        let c = Command {
            argv: Vec::new(),
            env_assigns: Vec::new(),
            infile: None,
            outfile: None,
            append_out: false,
            heredoc_delim: None,
        };
        assert(c@ =~= empty_command());
        c
    }

    /// Tells whether the command has no word, assignment or redirection.
    pub fn is_empty(&self) -> (r: bool)
        ensures
            r == command_is_empty(self@),
    {
        self.argv.len() == 0 && self.env_assigns.len() == 0 && self.infile.is_none()
            && self.outfile.is_none() && self.heredoc_delim.is_none()
    }
}

impl Default for Command {
    fn default() -> (c: Self)
        ensures
            c@ == empty_command(),
    {
        Self::new()
    }
}

/// Commands connected by pipes.
#[derive(Debug, Clone, PartialEq, Eq)]
pub struct Pipeline {
    pub commands: Vec<Command>,
}

pub open spec fn commands_view(v: Seq<Command>) -> Seq<CommandV> {
    v.map_values(|c: Command| c@)
}

impl Pipeline {
    /// The pipeline with no command.
    pub fn new() -> (p: Self)
        ensures
            commands_view(p.commands@) == Seq::<CommandV>::empty(),
    {
        let p = Pipeline { commands: Vec::new() };
        assert(commands_view(p.commands@) =~= Seq::<CommandV>::empty());
        p
    }
}

impl Default for Pipeline {
    fn default() -> (p: Self)
        ensures
            commands_view(p.commands@) == Seq::<CommandV>::empty(),
    {
        Self::new()
    }
}

#[derive(Debug, PartialEq, Eq)]
pub struct IfStmt {
    pub condition: Box<AstNode>,
    pub then_body: Box<AstNode>,
    pub else_body: Option<Box<AstNode>>,
}

#[derive(Debug, PartialEq, Eq)]
pub struct WhileStmt {
    pub condition: Box<AstNode>,
    pub body: Box<AstNode>,
}

#[derive(Debug, PartialEq, Eq)]
pub struct ForStmt {
    pub var: String,
    pub wordlist: Vec<String>,
    pub body: Box<AstNode>,
}

/// The syntax tree of a command line.
#[derive(Debug, PartialEq, Eq)]
pub enum AstNode {
    Command { command: Command },
    Pipeline { pipeline: Pipeline },
    And { left: Box<AstNode>, right: Box<AstNode> },
    Or { left: Box<AstNode>, right: Box<AstNode> },
    Semicolon { left: Box<AstNode>, right: Box<AstNode> },
    Background { body: Box<AstNode> },
    If(IfStmt),
    While(WhileStmt),
    For(ForStmt),
    Group { body: Box<AstNode> },
}

/// The mathematical model of a syntax tree.
pub enum AstV {
    Command(CommandV),
    Pipeline(Seq<CommandV>),
    And(Box<AstV>, Box<AstV>),
    Or(Box<AstV>, Box<AstV>),
    Semicolon(Box<AstV>, Box<AstV>),
    Background(Box<AstV>),
    If(Box<AstV>, Box<AstV>, Option<Box<AstV>>),
    While(Box<AstV>, Box<AstV>),
    For(Seq<char>, Seq<Seq<char>>, Box<AstV>),
    Group(Box<AstV>),
}

pub open spec fn ast_view(n: AstNode) -> AstV
    decreases n,
{
    match n {
        AstNode::Command { command } => AstV::Command(command@),
        AstNode::Pipeline { pipeline } => AstV::Pipeline(commands_view(pipeline.commands@)),
        AstNode::And { left, right } => AstV::And(
            Box::new(ast_view(*left)),
            Box::new(ast_view(*right)),
        ),
        AstNode::Or { left, right } => AstV::Or(
            Box::new(ast_view(*left)),
            Box::new(ast_view(*right)),
        ),
        AstNode::Semicolon { left, right } => AstV::Semicolon(
            Box::new(ast_view(*left)),
            Box::new(ast_view(*right)),
        ),
        AstNode::Background { body } => AstV::Background(Box::new(ast_view(*body))),
        AstNode::If(s) => AstV::If(
            Box::new(ast_view(*s.condition)),
            Box::new(ast_view(*s.then_body)),
            match s.else_body {
                Some(b) => Some(Box::new(ast_view(*b))),
                None => None,
            },
        ),
        AstNode::While(s) => AstV::While(
            Box::new(ast_view(*s.condition)),
            Box::new(ast_view(*s.body)),
        ),
        AstNode::For(s) => AstV::For(
            s.var@,
            strings_view(s.wordlist@),
            Box::new(ast_view(*s.body)),
        ),
        AstNode::Group { body } => AstV::Group(Box::new(ast_view(*body))),
    }
}

impl View for AstNode {
    type V = AstV;

    open spec fn view(&self) -> AstV {
        ast_view(*self)
    }
}

impl AstNode {
    pub fn command(command: Command) -> (n: Self)
        ensures
            n@ == AstV::Command(command@),
    {
        AstNode::Command { command }
    }

    pub fn pipeline(pipeline: Pipeline) -> (n: Self)
        ensures
            n@ == AstV::Pipeline(commands_view(pipeline.commands@)),
    {
        AstNode::Pipeline { pipeline }
    }

    pub fn binary_and(left: AstNode, right: AstNode) -> (n: Self)
        ensures
            n@ == AstV::And(Box::new(left@), Box::new(right@)),
    {
        AstNode::And { left: Box::new(left), right: Box::new(right) }
    }

    pub fn binary_or(left: AstNode, right: AstNode) -> (n: Self)
        ensures
            n@ == AstV::Or(Box::new(left@), Box::new(right@)),
    {
        AstNode::Or { left: Box::new(left), right: Box::new(right) }
    }

    pub fn binary_semicolon(left: AstNode, right: AstNode) -> (n: Self)
        ensures
            n@ == AstV::Semicolon(Box::new(left@), Box::new(right@)),
    {
        AstNode::Semicolon { left: Box::new(left), right: Box::new(right) }
    }

    pub fn background(body: AstNode) -> (n: Self)
        ensures
            n@ == AstV::Background(Box::new(body@)),
    {
        AstNode::Background { body: Box::new(body) }
    }

    pub fn group(body: AstNode) -> (n: Self)
        ensures
            n@ == AstV::Group(Box::new(body@)),
    {
        AstNode::Group { body: Box::new(body) }
    }
}

fn copy_strings(v: &Vec<String>) -> (r: Vec<String>)
    ensures
        r@ == v@,
{
    let mut r: Vec<String> = Vec::new();
    let mut i: usize = 0;
    while i < v.len()
        invariant
            i <= v@.len(),
            r@ == v@.take(i as int),
        decreases v@.len() - i,
    {
        r.push(v[i].clone());
        assert(r@ =~= v@.take(i + 1));
        i += 1;
    }
    assert(v@.take(i as int) =~= v@);
    r
}

fn copy_opt(o: &Option<String>) -> (r: Option<String>)
    ensures
        r == *o,
{
    match o {
        Some(s) => Some(s.clone()),
        None => None,
    }
}

/// A copy of a command.
pub fn copy_command(c: &Command) -> (r: Command)
    ensures
        r@ == c@,
{
    Command {
        argv: copy_strings(&c.argv),
        env_assigns: copy_strings(&c.env_assigns),
        infile: copy_opt(&c.infile),
        outfile: copy_opt(&c.outfile),
        append_out: c.append_out,
        heredoc_delim: copy_opt(&c.heredoc_delim),
    }
}

fn copy_commands(v: &Vec<Command>) -> (r: Vec<Command>)
    ensures
        commands_view(r@) == commands_view(v@),
{
    let mut r: Vec<Command> = Vec::new();
    let mut i: usize = 0;
    while i < v.len()
        invariant
            i <= v@.len(),
            commands_view(r@) == commands_view(v@).take(i as int),
        decreases v@.len() - i,
    {
        let ghost before = commands_view(r@);
        let c = copy_command(&v[i]);
        r.push(c);
        assert(commands_view(r@) =~= before.push(c@));
        assert(commands_view(v@).take(i + 1) =~= commands_view(v@).take(i as int).push(v@[i as int]@));
        i += 1;
    }
    assert(commands_view(v@).take(i as int) =~= commands_view(v@));
    r
}

/// A copy of a syntax tree.
pub fn copy_node(n: &AstNode) -> (r: AstNode)
    ensures
        r@ == n@,
    decreases n,
{
    match n {
        AstNode::Command { command } => AstNode::Command { command: copy_command(command) },
        AstNode::Pipeline { pipeline } => AstNode::Pipeline {
            pipeline: Pipeline { commands: copy_commands(&pipeline.commands) },
        },
        AstNode::And { left, right } => AstNode::And {
            left: Box::new(copy_node(left)),
            right: Box::new(copy_node(right)),
        },
        AstNode::Or { left, right } => AstNode::Or {
            left: Box::new(copy_node(left)),
            right: Box::new(copy_node(right)),
        },
        AstNode::Semicolon { left, right } => AstNode::Semicolon {
            left: Box::new(copy_node(left)),
            right: Box::new(copy_node(right)),
        },
        AstNode::Background { body } => AstNode::Background { body: Box::new(copy_node(body)) },
        AstNode::If(s) => {
            let else_body = match &s.else_body {
                Some(b) => Some(Box::new(copy_node(b))),
                None => None,
            };
            AstNode::If(
                IfStmt {
                    condition: Box::new(copy_node(&s.condition)),
                    then_body: Box::new(copy_node(&s.then_body)),
                    else_body,
                },
            )
        },
        AstNode::While(s) => AstNode::While(
            WhileStmt {
                condition: Box::new(copy_node(&s.condition)),
                body: Box::new(copy_node(&s.body)),
            },
        ),
        AstNode::For(s) => AstNode::For(
            ForStmt {
                var: s.var.clone(),
                wordlist: copy_strings(&s.wordlist),
                body: Box::new(copy_node(&s.body)),
            },
        ),
        AstNode::Group { body } => AstNode::Group { body: Box::new(copy_node(body)) },
    }
}

} // verus!
