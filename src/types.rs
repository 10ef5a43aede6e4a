use vstd::prelude::*;

verus! {

#[derive(Debug, PartialEq, Eq, PartialOrd, Ord)]
pub enum Bool {
    True,
    False,
}

pub type Name = String;

#[derive(Debug, PartialEq, Eq, PartialOrd, Ord)]
pub enum Expr<'a> {
    Var(Name),
    App(&'a Expr<'a>, &'a Expr<'a>),
    Lam(Name, &'a Expr<'a>),
    Let(Name, &'a Expr<'a>, &'a Expr<'a>),
    Lit(Lit),
    If(&'a Expr<'a>, &'a Expr<'a>, &'a Expr<'a>),
    Fix(&'a Expr<'a>),
    Op(Binop, &'a Expr<'a>, &'a Expr<'a>),
}

#[derive(Debug, PartialEq, Eq, PartialOrd, Ord)]
pub enum Lit {
    LInt(i64),
    LBool(Bool),
}

#[derive(Debug, PartialEq, Eq, PartialOrd, Ord)]
pub enum Binop {
    Add,
    Sub,
    Mul,
    Eql,
}

pub type Decl<'a> = (String, Expr<'a>);

#[derive(PartialEq, Eq)]
pub enum Program<'a> {
    Program(&'a [Decl<'a>], &'a Expr<'a>),
}

} // verus!

verus! {

/// A symbol: a bare name, or a name qualified by a namespace.
#[derive(Debug, PartialEq, Eq, Clone)]
pub enum Symbol {
    SimpleSymbol(String),
    NamespacedSymbol(String, String),
}

/// A keyword: written with a leading colon, bare or qualified by a namespace.
#[derive(Debug, PartialEq, Eq, Clone)]
pub enum Keyword {
    SimpleKeyword(String),
    NamespacedKeyword(String, String),
}

/// A regular-expression literal, holding its source text verbatim.
#[derive(Debug, PartialEq, Eq, Clone)]
pub struct Pattern(pub String);

/// The abstract form of a symbol or keyword: the optional namespace and the name.
pub type QualifiedName = (Option<Seq<char>>, Seq<char>);

impl View for Symbol {
    type V = QualifiedName;

    open spec fn view(&self) -> QualifiedName {
        match self {
            Symbol::SimpleSymbol(name) => (None, name@),
            Symbol::NamespacedSymbol(ns, name) => (Some(ns@), name@),
        }
    }
}

impl View for Keyword {
    type V = QualifiedName;

    open spec fn view(&self) -> QualifiedName {
        match self {
            Keyword::SimpleKeyword(name) => (None, name@),
            Keyword::NamespacedKeyword(ns, name) => (Some(ns@), name@),
        }
    }
}

impl View for Pattern {
    type V = Seq<char>;

    open spec fn view(&self) -> Seq<char> {
        self.0@
    }
}

} // verus!
