//! The declaration-list tree that parsing produces, together with its
//! mathematical model: every node is mirrored by a ghost value built from
//! character sequences, and the contracts of the parser and the transpiler
//! speak of those models.

use vstd::prelude::*;
use vstd::string::StringExecFns;
use crate::cursor::list_go;
use crate::cursor::Cursor;
use crate::cursor::ListOut;
use crate::cursor::ParseError;
use crate::text::seq_views;

verus! {

/// One `property: value;` declaration.
#[derive(Debug, PartialEq, Eq)]
pub struct Property {
    pub property: String,
    pub value: String,
}

/// One entry of a declaration list.
#[derive(Debug, PartialEq, Eq)]
pub enum Declaration {
    Property(Property),
    AtRule(AtRule),
    QualifiedRule(QualifiedRule),
}

/// One comma-separated selector group, in source order.
#[derive(Debug, PartialEq, Eq, Hash)]
pub struct Selectors(pub Vec<String>);

/// A selector block: `selectors { block }`.
#[derive(Debug, PartialEq, Eq)]
pub struct QualifiedRule {
    pub selectors: Selectors,
    pub block: Vec<Declaration>,
}

/// An at-rule, either `@name value { block }` or the statement form
/// `@name value;` (then `block` is `None`).
#[derive(Debug, PartialEq, Eq)]
pub struct AtRule {
    pub rule_name: String,
    pub rule_value: String,
    pub block: Option<Vec<Declaration>>,
}

/// The parse result of one text fragment: a top-level declaration list.
#[derive(Debug, PartialEq, Eq)]
pub struct RuntimeCss(pub Vec<Declaration>);

/// Model of a [`Property`].
pub struct PropM {
    pub name: Seq<char>,
    pub value: Seq<char>,
}

/// Model of an [`AtRule`].
pub struct AtM {
    pub name: Seq<char>,
    pub value: Seq<char>,
    pub block: Option<Seq<DeclM>>,
}

/// Model of a [`QualifiedRule`].
pub struct QualM {
    pub sels: Seq<Seq<char>>,
    pub block: Seq<DeclM>,
}

/// Model of a [`Declaration`].
pub enum DeclM {
    Prop(PropM),
    At(AtM),
    Qual(QualM),
}

/// The model of one declaration.
pub open spec fn decl_model(d: Declaration) -> DeclM
    decreases d,
{
    match d {
        Declaration::Property(p) => DeclM::Prop(PropM { name: p.property@, value: p.value@ }),
        Declaration::AtRule(a) => DeclM::At(at_model(a)),
        Declaration::QualifiedRule(q) => DeclM::Qual(qual_model(q)),
    }
}

/// The model of an at-rule.
pub open spec fn at_model(a: AtRule) -> AtM
    decreases a,
{
    AtM {
        name: a.rule_name@,
        value: a.rule_value@,
        block: match a.block {
            Option::Some(b) => Option::Some(decls_model(b@)),
            Option::None => Option::None,
        },
    }
}

/// The model of a qualified rule.
pub open spec fn qual_model(q: QualifiedRule) -> QualM
    decreases q,
{
    QualM { sels: seq_views(q.selectors.0@), block: decls_model(q.block@) }
}

/// The models of a sequence of declarations, element by element.
pub open spec fn decls_model(ds: Seq<Declaration>) -> Seq<DeclM>
    decreases ds,
{
    if ds.len() == 0 {
        Seq::empty()
    } else {
        seq![decl_model(ds[0])] + decls_model(ds.drop_first())
    }
}

pub proof fn lemma_decls_model(ds: Seq<Declaration>)
    ensures
        decls_model(ds).len() == ds.len(),
        forall|i: int| 0 <= i < ds.len() ==> decls_model(ds)[i] == decl_model(ds[i]),
    decreases ds.len(),
{
    if ds.len() > 0 {
        lemma_decls_model(ds.drop_first());
    }
}

pub proof fn lemma_decls_model_push(ds: Seq<Declaration>, d: Declaration)
    ensures
        decls_model(ds.push(d)) == decls_model(ds).push(decl_model(d)),
    decreases ds.len(),
{
    if ds.len() == 0 {
        assert(ds.push(d)[0] == d);
        assert(ds.push(d).drop_first() =~= Seq::<Declaration>::empty());
        assert(decls_model(ds.push(d).drop_first()) =~= Seq::<DeclM>::empty());
        assert(decls_model(ds) =~= Seq::<DeclM>::empty());
        assert(decls_model(ds.push(d)) =~= decls_model(ds).push(decl_model(d)));
    } else {
        assert(ds.push(d).drop_first() =~= ds.drop_first().push(d));
        lemma_decls_model_push(ds.drop_first(), d);
        assert(decls_model(ds.push(d)) =~= decls_model(ds).push(decl_model(d)));
    }
}

pub proof fn lemma_decls_model_concat(a: Seq<Declaration>, b: Seq<Declaration>)
    ensures
        decls_model(a + b) == decls_model(a) + decls_model(b),
    decreases a.len(),
{
    if a.len() == 0 {
        assert(a + b =~= b);
        assert(decls_model(a) =~= Seq::<DeclM>::empty());
        assert(decls_model(a + b) =~= decls_model(a) + decls_model(b));
    } else {
        assert((a + b)[0] == a[0]);
        assert((a + b).drop_first() =~= a.drop_first() + b);
        lemma_decls_model_concat(a.drop_first(), b);
        assert(decls_model(a + b) =~= decls_model(a) + decls_model(b));
    }
}

impl Selectors {
    /// The model of a selector group: the views of its strings.
    pub open spec fn model(self) -> Seq<Seq<char>> {
        seq_views(self.0@)
    }
}

impl Clone for Property {
    /// A property clones to an equal property.
    fn clone(&self) -> (r: Self)
        ensures
            r == *self,
    {
        Property { property: self.property.clone(), value: self.value.clone() }
    }
}

impl Clone for Selectors {
    /// A selector group clones to one holding the same strings.
    fn clone(&self) -> (r: Self)
        ensures
            r.0@ == self.0@,
    {
        let mut v: Vec<String> = Vec::new();
        let mut i: usize = 0;
        while i < self.0.len()
            invariant
                i <= self.0@.len(),
                v@ == self.0@.subrange(0, i as int),
            decreases self.0@.len() - i,
        {
            v.push(self.0[i].clone());
            proof {
                assert(v@ =~= self.0@.subrange(0, i as int + 1));
            }
            i = i + 1;
        }
        proof {
            assert(self.0@.subrange(0, self.0@.len() as int) =~= self.0@);
        }
        Selectors(v)
    }
}

/// A fresh declaration list with the same model, element by element.
fn clone_declarations(ds: &Vec<Declaration>) -> (r: Vec<Declaration>)
    ensures
        decls_model(r@) == decls_model(ds@),
    decreases ds,
{
    let ghost full = decls_model(ds@);
    let mut r: Vec<Declaration> = Vec::new();
    let mut i: usize = 0;
    proof {
        lemma_decls_model(ds@);
        assert(decls_model(r@) =~= full.subrange(0, 0));
    }
    while i < ds.len()
        invariant
            i <= ds@.len(),
            full == decls_model(ds@),
            full.len() == ds@.len(),
            forall|k: int| 0 <= k < ds@.len() ==> full[k] == decl_model(ds@[k]),
            decls_model(r@) == full.subrange(0, i as int),
        decreases ds@.len() - i,
    {
        proof {
            assert(decreases_to!(ds => ds@));
            assert(decreases_to!(ds@ => ds@[i as int]));
        }
        let ghost r0 = r@;
        let d = ds[i].clone();
        r.push(d);
        proof {
            lemma_decls_model_push(r0, r@.last());
            assert(r@ =~= r0.push(r@.last()));
            assert(decls_model(r@) =~= full.subrange(0, i as int + 1));
        }
        i = i + 1;
    }
    proof {
        assert(full.subrange(0, full.len() as int) =~= full);
    }
    r
}

impl Clone for Declaration {
    /// A declaration clones to one with the same model.
    fn clone(&self) -> (r: Self)
        ensures
            decl_model(r) == decl_model(*self),
        decreases self,
    {
        match self {
            Declaration::Property(p) => Declaration::Property(p.clone()),
            Declaration::AtRule(a) => {
                proof {
                    assert(decreases_to!(*self => *a));
                }
                Declaration::AtRule(a.clone())
            },
            Declaration::QualifiedRule(q) => {
                proof {
                    assert(decreases_to!(*self => *q));
                }
                Declaration::QualifiedRule(q.clone())
            },
        }
    }
}

impl Clone for AtRule {
    /// An at-rule clones to one with the same model.
    fn clone(&self) -> (r: Self)
        ensures
            at_model(r) == at_model(*self),
        decreases self,
    {
        let block = match &self.block {
            Some(b) => {
                proof {
                    assert(decreases_to!(*self => self.block));
                    assert(decreases_to!(self.block => *b));
                }
                Some(clone_declarations(b))
            },
            None => None,
        };
        AtRule {
            rule_name: self.rule_name.clone(),
            rule_value: self.rule_value.clone(),
            block,
        }
    }
}

impl Clone for QualifiedRule {
    /// A qualified rule clones to one with the same model.
    fn clone(&self) -> (r: Self)
        ensures
            qual_model(r) == qual_model(*self),
        decreases self,
    {
        proof {
            assert(decreases_to!(*self => self.block));
        }
        QualifiedRule {
            selectors: self.selectors.clone(),
            block: clone_declarations(&self.block),
        }
    }
}

impl Clone for RuntimeCss {
    /// A parse result clones to one with the same model.
    fn clone(&self) -> (r: Self)
        ensures
            r.model() == self.model(),
    {
        RuntimeCss(clone_declarations(&self.0))
    }
}

impl RuntimeCss {
    /// The model of the parsed fragment.
    pub open spec fn model(self) -> Seq<DeclM> {
        decls_model(self.0@)
    }

    /// Parses one CSS fragment.  `Ok` carries the fully parsed declaration
    /// list; `Err` carries the best-effort partial list together with the
    /// diagnostic message, so that callers may still use the prefix that
    /// parsed cleanly.
    pub fn parse(code: &str) -> (r: Result<RuntimeCss, (RuntimeCss, String)>)
        ensures
            ({
                match parse_result(code@) {
                    ListOut::Done(ds, _) => r matches Ok(css) && css.model() == ds,
                    ListOut::Part(ds, m, _) => {
                        &&& r matches Err(p)
                        &&& p.0.model() == ds
                        &&& p.1@ == m
                    },
                }
            }),
    {
        let mut cursor = Cursor::new(code);
        match cursor.parse_declaration_list() {
            Ok(declarations) => Ok(RuntimeCss(declarations)),
            Err(ParseError::Fatal) => Err(
                (RuntimeCss(Vec::new()), String::from_str("[CSS parse error]")),
            ),
            Err(ParseError::Ignorable(declarations, msg)) => Err(
                (RuntimeCss(declarations), msg),
            ),
        }
    }
}

/// What [`RuntimeCss::parse`] makes of an input text: the whole fragment is
/// one declaration list.
pub open spec fn parse_result(s: Seq<char>) -> ListOut {
    list_go(Seq::<DeclM>::empty(), false, Option::None, s)
}

} // verus!
