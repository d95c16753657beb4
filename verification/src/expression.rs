use vstd::prelude::*;

verus! {

/// The mathematical value of an expression: a leaf carrying its lexeme, or an
/// ordered sequence of subtrees.
pub enum Tree {
    Symbol(Seq<char>),
    Text(Seq<char>),
    Number(Seq<char>),
    List(Seq<Tree>),
}

#[derive(Debug)]
pub struct ExpressionError(String);

impl View for ExpressionError {
    type V = Seq<char>;

    closed spec fn view(&self) -> Seq<char> {
        self.0@
    }
}

impl Clone for ExpressionError {
    fn clone(&self) -> (res: Self)
        ensures
            res@ == self@,
    {
        ExpressionError(self.0.clone())
    }
}

impl ExpressionError {
    /// The text of the error.
    pub fn message(&self) -> (s: String)
        ensures
            s@ == self@,
    {
        self.0.clone()
    }
}

#[derive(Debug)]
pub enum AtomType {
    Symbol(String),
    String(String),
    Number(String),
}

#[derive(Debug)]
pub enum ExpressionType {
    Atom(AtomType),
    List(Vec<Expression>),
}

#[derive(Debug)]
pub struct Expression(ExpressionType);

impl View for AtomType {
    type V = Tree;

    open spec fn view(&self) -> Tree {
        match *self {
            AtomType::Symbol(s) => Tree::Symbol(s@),
            AtomType::String(s) => Tree::Text(s@),
            AtomType::Number(s) => Tree::Number(s@),
        }
    }
}

/// The tree that an atom or a list of expressions stands for.
pub open spec fn type_tree(t: ExpressionType) -> Tree
    decreases t,
{
    match t {
        ExpressionType::Atom(a) => a@,
        ExpressionType::List(items) => Tree::List(
            Seq::new(
                items@.len(),
                |i: int|
                    if 0 <= i < items@.len() {
                        expression_tree(items@[i])
                    } else {
                        Tree::List(Seq::empty())
                    },
            ),
        ),
    }
}

/// The tree that an expression stands for.
pub closed spec fn expression_tree(e: Expression) -> Tree
    decreases e,
{
    type_tree(e.0)
}

impl View for ExpressionType {
    type V = Tree;

    open spec fn view(&self) -> Tree {
        type_tree(*self)
    }
}

impl View for Expression {
    type V = Tree;

    open spec fn view(&self) -> Tree {
        expression_tree(*self)
    }
}

impl Clone for AtomType {
    fn clone(&self) -> (res: Self)
        ensures
            res@ == self@,
    {
        match self {
            AtomType::Symbol(s) => AtomType::Symbol(s.clone()),
            AtomType::String(s) => AtomType::String(s.clone()),
            AtomType::Number(s) => AtomType::Number(s.clone()),
        }
    }
}

impl Clone for Expression {
    fn clone(&self) -> (res: Self)
        ensures
            res@ == self@,
        decreases *self,
    {
        Expression(self.0.clone())
    }
}

impl Clone for ExpressionType {
    fn clone(&self) -> (res: Self)
        ensures
            res@ == self@,
        decreases *self,
    {
        match self {
            ExpressionType::Atom(a) => ExpressionType::Atom(a.clone()),
            ExpressionType::List(items) => {
                let mut copies: Vec<Expression> = Vec::new();
                let mut i: usize = 0;
                while i < items.len()
                    invariant
                        i <= items.len(),
                        copies.len() == i,
                        *self == ExpressionType::List(*items),
                        forall|k: int| 0 <= k < i ==> copies@[k]@ == items@[k]@,
                    decreases items.len() - i,
                {
                    assert(self->List_0 == *items);
                    let copy = items[i].clone();
                    copies.push(copy);
                    i += 1;
                }
                let res = ExpressionType::List(copies);
                assert(res@->List_0 =~= self@->List_0);
                res
            },
        }
    }
}

impl Expression {
    pub fn new(et: ExpressionType) -> (e: Expression)
        ensures
            e@ == et@,
    {
        Expression(et)
    }

    pub fn new_list() -> (e: Expression)
        ensures
            e@ == Tree::List(Seq::empty()),
    {
        let e = Expression(ExpressionType::List(Vec::new()));
        assert(e@->List_0 =~= Seq::empty());
        e
    }

    pub fn new_symbol(value: String) -> (e: Expression)
        ensures
            e@ == Tree::Symbol(value@),
    {
        Expression(ExpressionType::Atom(AtomType::Symbol(value)))
    }

    pub fn new_string(value: String) -> (e: Expression)
        ensures
            e@ == Tree::Text(value@),
    {
        Expression(ExpressionType::Atom(AtomType::String(value)))
    }

    pub fn new_number(value: String) -> (e: Expression)
        ensures
            e@ == Tree::Number(value@),
    {
        Expression(ExpressionType::Atom(AtomType::Number(value)))
    }

    pub fn push(&mut self, exp: Expression) -> (r: Result<(), String>)
        ensures
            r is Ok <==> old(self)@ is List,
            r is Ok ==> final(self)@ == Tree::List(old(self)@->List_0.push(exp@)),
            r matches Err(msg) ==> *final(self) == *old(self) && msg@ == "Tried to append to an atom"@,
    {
        match &mut self.0 {
            ExpressionType::Atom(_) => Err("Tried to append to an atom".to_owned()),
            ExpressionType::List(items) => {
                items.push(exp);
                assert(final(self)@->List_0 =~= old(self)@->List_0.push(exp@));
                Ok(())
            },
        }
    }

    pub fn get_value(&self) -> (t: &ExpressionType)
        ensures
            t@ == self@,
    {
        &self.0
    }

    pub fn len(&self) -> (n: usize)
        ensures
            n == (match self@ {
                Tree::List(items) => items.len(),
                _ => 0,
            }),
    {
        match &self.0 {
            ExpressionType::Atom(_) => 0,
            ExpressionType::List(items) => items.len(),
        }
    }
}

} // verus!
