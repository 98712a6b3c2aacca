//! The abstract syntax tree: terms, components, commands and programs,
//! together with their mathematical models (`TermX` and friends), which the
//! grammar's specification functions speak of.
use vstd::prelude::*;

verus! {

/// One value position of the grammar.
#[derive(Debug, PartialEq, Eq)]
pub enum Term {
    /// A bracketed group `[ ... ]`, evaluated later as a first-class value.
    Block(Vec<Command>),
    /// A parenthesized group `( ... )`, evaluated later as command
    /// substitution.
    Subst(Vec<Command>),
    /// A reference by name; the name may be empty (a bare `$`).
    Variable(String),
    /// A literal string with escapes already resolved.
    StringLiteral(String),
    /// An ordered concatenation of literal and variable or substitution
    /// fragments forming one logical word.
    Interp(Vec<Term>),
}

/// One element of a command: a flag or a positional argument.
#[derive(Debug, PartialEq, Eq)]
pub enum Component {
    /// A `-name` or `--name` token.
    Flag(String),
    /// A positional value.
    Argument(Term),
}

/// One command: an optional target (the `@` prefix), its flags and
/// arguments in order, and the command it pipes into, if any.
#[derive(Debug, PartialEq, Eq)]
pub struct Command {
    pub target: Option<Term>,
    pub components: Vec<Component>,
    pub pipe: Option<Box<Command>>,
}

/// A whole script: its top-level commands in order.
#[derive(Debug, PartialEq, Eq)]
pub struct Program {
    pub commands: Vec<Command>,
}

/// The model of a `Term`.
pub ghost enum TermX {
    Block(Seq<CommandX>),
    Subst(Seq<CommandX>),
    Variable(Seq<char>),
    StringLit(Seq<char>),
    Interp(Seq<TermX>),
}

/// The model of a `Component`.
pub ghost enum ComponentX {
    Flag(Seq<char>),
    Argument(TermX),
}

/// The model of a `Command`. `pipe` stands for the optional piped-into
/// command: it is empty where the command has none and a single element
/// where it has one.
pub ghost struct CommandX {
    pub target: Option<TermX>,
    pub components: Seq<ComponentX>,
    pub pipe: Seq<CommandX>,
}

pub open spec fn view_term(t: Term) -> TermX
    decreases t,
{
    match t {
        Term::Block(cs) => TermX::Block(view_commands(cs@)),
        Term::Subst(cs) => TermX::Subst(view_commands(cs@)),
        Term::Variable(name) => TermX::Variable(name@),
        Term::StringLiteral(value) => TermX::StringLit(value@),
        Term::Interp(ts) => TermX::Interp(view_terms(ts@)),
    }
}

pub open spec fn view_terms(ts: Seq<Term>) -> Seq<TermX>
    decreases ts,
{
    if ts.len() == 0 {
        Seq::empty()
    } else {
        view_terms(ts.drop_last()).push(view_term(ts.last()))
    }
}

pub open spec fn view_component(x: Component) -> ComponentX
    decreases x,
{
    match x {
        Component::Flag(name) => ComponentX::Flag(name@),
        Component::Argument(t) => ComponentX::Argument(view_term(t)),
    }
}

pub open spec fn view_components(xs: Seq<Component>) -> Seq<ComponentX>
    decreases xs,
{
    if xs.len() == 0 {
        Seq::empty()
    } else {
        view_components(xs.drop_last()).push(view_component(xs.last()))
    }
}

pub open spec fn view_command(c: Command) -> CommandX
    decreases c,
{
    CommandX {
        target: match c.target {
            Some(t) => Some(view_term(t)),
            None => None,
        },
        components: view_components(c.components@),
        pipe: match c.pipe {
            Some(b) => seq![view_command(*b)],
            None => Seq::empty(),
        },
    }
}

pub open spec fn view_commands(cs: Seq<Command>) -> Seq<CommandX>
    decreases cs,
{
    if cs.len() == 0 {
        Seq::empty()
    } else {
        view_commands(cs.drop_last()).push(view_command(cs.last()))
    }
}

impl View for Term {
    type V = TermX;

    open spec fn view(&self) -> TermX {
        view_term(*self)
    }
}

impl View for Component {
    type V = ComponentX;

    open spec fn view(&self) -> ComponentX {
        view_component(*self)
    }
}

impl View for Command {
    type V = CommandX;

    open spec fn view(&self) -> CommandX {
        view_command(*self)
    }
}

impl View for Program {
    type V = Seq<CommandX>;

    open spec fn view(&self) -> Seq<CommandX> {
        view_commands(self.commands@)
    }
}

/// Views distribute over pushing one element onto a sequence of terms.
pub proof fn lemma_view_terms_push(ts: Seq<Term>, t: Term)
    ensures
        view_terms(ts.push(t)) == view_terms(ts).push(view_term(t)),
{
    assert(ts.push(t).drop_last() =~= ts);
}

/// Views distribute over pushing one element onto a sequence of components.
pub proof fn lemma_view_components_push(xs: Seq<Component>, x: Component)
    ensures
        view_components(xs.push(x)) == view_components(xs).push(view_component(x)),
{
    assert(xs.push(x).drop_last() =~= xs);
}

/// Views distribute over pushing one element onto a sequence of commands.
pub proof fn lemma_view_commands_push(cs: Seq<Command>, c: Command)
    ensures
        view_commands(cs.push(c)) == view_commands(cs).push(view_command(c)),
{
    assert(cs.push(c).drop_last() =~= cs);
}

} // verus!
