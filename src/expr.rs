use vstd::prelude::*;
use crate::text::{decimal, push_char, push_decimal};
use vstd::string::StringExecFns;

verus! {

/// The mathematical model of an expression tree.
pub enum SExpr {
    Number(int),
    Str(Seq<char>),
    Symbol(Seq<char>),
    List(Seq<SExpr>),
}

/// An expression tree read from one line of input.
#[derive(Debug, PartialEq)]
pub enum Expr {
    Number(i64),
    String(String),
    Symbol(String),
    List(Vec<Expr>),
}

impl Expr {
    pub open spec fn view(&self) -> SExpr
        decreases self,
    {
        match self {
            Expr::Number(n) => SExpr::Number(*n as int),
            Expr::String(s) => SExpr::Str(s@),
            Expr::Symbol(s) => SExpr::Symbol(s@),
            Expr::List(v) => SExpr::List(
                Seq::new(
                    v.len() as nat,
                    |i: int|
                        if 0 <= i < v.len() {
                            v[i].view()
                        } else {
                            SExpr::List(Seq::empty())
                        },
                ),
            ),
        }
    }
}

/// The canonical text of an expression: numbers in decimal, strings between
/// double quotes, symbols verbatim, lists parenthesised with one space
/// between their children.
pub open spec fn print(e: SExpr) -> Seq<char>
    decreases e,
{
    match e {
        SExpr::Number(n) => decimal(n),
        SExpr::Str(t) => seq!['"'] + t + seq!['"'],
        SExpr::Symbol(t) => t,
        SExpr::List(items) => seq!['('] + print_items(items) + seq![')'],
    }
}

/// The texts of `items`, joined by single spaces.
pub open spec fn print_items(items: Seq<SExpr>) -> Seq<char>
    decreases items,
{
    if items.len() == 0 {
        Seq::empty()
    } else if items.len() == 1 {
        print(items[0])
    } else {
        print_items(items.subrange(0, items.len() - 1)) + seq![' '] + print(
            items[items.len() - 1],
        )
    }
}

pub open spec fn views(v: Seq<Expr>) -> Seq<SExpr> {
    Seq::new(v.len(), |k: int| v[k]@)
}

impl Expr {
    pub proof fn lemma_list_view(v: Vec<Expr>)
        ensures
            Expr::List(v)@ == SExpr::List(views(v@)),
    {
        assert(Expr::List(v)@->List_0 =~= views(v@));
    }

    /// The canonical text of this expression.
    pub fn render(&self) -> (r: String)
        ensures
            r@ == print(self@),
        decreases self,
    {
        let mut out = String::new();
        match self {
            Expr::Number(n) => {
                push_decimal(&mut out, *n);
                assert(out@ =~= print(self@));
            },
            Expr::String(t) => {
                push_char(&mut out, '"');
                out.append(t.as_str());
                push_char(&mut out, '"');
                assert(out@ =~= print(self@));
            },
            Expr::Symbol(t) => {
                out.append(t.as_str());
                assert(out@ =~= print(self@));
            },
            Expr::List(v) => {
                let ghost items = self@->List_0;
                push_char(&mut out, '(');
                let mut i: usize = 0;
                while i < v.len()
                    invariant
                        self@ == SExpr::List(items),
                        *self == Expr::List(*v),
                        items.len() == v.len(),
                        forall|k: int| 0 <= k < v.len() ==> items[k] == (#[trigger] v[k])@,
                        0 <= i <= v.len(),
                        out@ == seq!['('] + print_items(items.subrange(0, i as int)),
                    decreases v.len() - i,
                {
                    proof {
                        assert(decreases_to!(*self => v[i as int]));
                    }
                    let piece = v[i].render();
                    let ghost before = items.subrange(0, i as int);
                    let ghost after = items.subrange(0, i + 1);
                    assert(after.subrange(0, i as int) =~= before);
                    if i > 0 {
                        push_char(&mut out, ' ');
                    }
                    out.append(piece.as_str());
                    i = i + 1;
                    proof {
                        if i == 1 {
                            assert(print_items(after) == print(items[0]));
                        }
                        assert(out@ =~= seq!['('] + print_items(after));
                    }
                }
                assert(items.subrange(0, v.len() as int) =~= items);
                push_char(&mut out, ')');
                assert(out@ =~= print(self@));
            },
        }
        out
    }
}

} // verus!
