//! Function definitions: parameters with optional types, and docstrings.

use crate::fileset;
use crate::names::Duplicate;
use crate::text;
use crate::text::{chars_of, copy_texts, find_from, join_texts, same, sub_chars, tail_texts, text_of};
use crate::types;
use crate::types::{parse_type_name, TypeTag};
use vstd::prelude::*;

verus! {

/// A parameter of a function.
#[derive(Clone, Debug)]
pub struct ParamSpec {
    pub name: String,
    pub array: bool,
    pub ty: Option<TypeTag>,
}

/// What a parameter is.
#[verifier::ext_equal]
pub struct ParamView {
    pub name: Seq<char>,
    pub array: bool,
    pub ty: Option<TypeTag>,
}

impl View for ParamSpec {
    type V = ParamView;

    open spec fn view(&self) -> ParamView {
        ParamView { name: self.name@, array: self.array, ty: self.ty }
    }
}

/// What the parameters of a list are.
pub open spec fn param_views(list: Seq<ParamSpec>) -> Seq<ParamView> {
    Seq::new(list.len(), |i: int| list[i]@)
}

/// A function: its parameters, the lines of its body, and its docstring.
#[derive(Clone, Debug)]
pub struct FunctionDef {
    pub params: Vec<ParamSpec>,
    pub body: Vec<String>,
    pub doc: Option<String>,
}

/// What a function is.
#[verifier::ext_equal]
pub struct FunctionView {
    pub params: Seq<ParamView>,
    pub body: Seq<Seq<char>>,
    pub doc: Option<Seq<char>>,
}

impl View for FunctionDef {
    type V = FunctionView;

    open spec fn view(&self) -> FunctionView {
        FunctionView {
            params: param_views(self.params@),
            body: text::texts(self.body@),
            doc: fileset::opt_text(self.doc),
        }
    }
}

impl DeepView for FunctionDef {
    type V = FunctionView;

    open spec fn deep_view(&self) -> FunctionView {
        self@
    }
}

impl Duplicate for FunctionDef {
    fn duplicate(&self) -> (r: FunctionDef) {
        self.copy()
    }
}

impl FunctionDef {
    /// A copy of the definition.
    pub fn copy(&self) -> (r: FunctionDef)
        ensures
            r@ == self@,
    {
        let ghost all = param_views(self.params@);
        let mut params: Vec<ParamSpec> = Vec::new();
        let mut i: usize = 0;
        assert(param_views(params@) =~= all.take(0));
        while i < self.params.len()
            invariant
                i <= self.params@.len(),
                all == param_views(self.params@),
                param_views(params@) == all.take(i as int),
            decreases self.params@.len() - i,
        {
            let ghost before = params@;
            let p = ParamSpec {
                name: self.params[i].name.clone(),
                array: self.params[i].array,
                ty: self.params[i].ty,
            };
            params.push(p);
            proof {
                assert(p@ =~= all[i as int]);
                assert(param_views(params@) =~= param_views(before).push(p@));
                assert(all.take(i + 1) =~= all.take(i as int).push(p@));
            }
            i = i + 1;
        }
        assert(all.take(self.params@.len() as int) =~= all);
        let doc = match &self.doc {
            Some(d) => Some(d.clone()),
            None => None,
        };
        FunctionDef { params, body: copy_texts(&self.body), doc }
    }
}

/// The parameter that a token declares: `name`, `name:type` or
/// `name:[type]`. A type that is not known counts as none.
pub open spec fn param_of(token: Seq<char>) -> ParamView {
    match text::found_from(token, seq![':'], 0) {
        None => ParamView { name: token, array: false, ty: None },
        Some(i) => {
            let name = token.take(i);
            let ty = token.skip(i + 1);
            if ty.len() >= 2 && ty[0] == '[' && ty.last() == ']' {
                ParamView {
                    name,
                    array: true,
                    ty: types::type_named(ty.subrange(1, ty.len() - 1)),
                }
            } else {
                ParamView { name, array: false, ty: types::type_named(ty) }
            }
        },
    }
}

/// The place of the `--` that starts the docstring, from `i` on, or the end.
pub open spec fn doc_mark(tokens: Seq<Seq<char>>, i: int) -> int
    decreases tokens.len() - i,
{
    if i < 0 || i >= tokens.len() {
        tokens.len() as int
    } else if tokens[i] == "--"@ {
        i
    } else {
        doc_mark(tokens, i + 1)
    }
}

/// The parameters that the tokens before the docstring declare.
pub open spec fn params_of(tokens: Seq<Seq<char>>) -> Seq<ParamView> {
    Seq::new(doc_mark(tokens, 0) as nat, |i: int| param_of(tokens[i]))
}

/// The docstring: what stands behind `--`, joined by spaces.
pub open spec fn doc_of(tokens: Seq<Seq<char>>) -> Option<Seq<char>> {
    let mark = doc_mark(tokens, 0);
    if mark < tokens.len() {
        Some(text::joined(tokens.skip(mark + 1), " "@))
    } else {
        None
    }
}

/// Reads one parameter.
pub fn parse_one_param(token: &str) -> (r: ParamSpec)
    ensures
        r@ == param_of(token@),
{
    let v = chars_of(token);
    let colon: Vec<char> = vec![':'];
    assert(colon@ =~= seq![':']);
    match find_from(&v, &colon, 0) {
        None => ParamSpec { name: token.to_owned(), array: false, ty: None },
        Some(i) => {
            assert(v@.subrange(0, i as int) =~= v@.take(i as int));
            let front = sub_chars(&v, 0, i);
            let name = text_of(&front);
            assert(i + 1 <= v.len());
            assert(v@.subrange(i + 1, v@.len() as int) =~= v@.skip(i + 1));
            let ty = sub_chars(&v, i + 1, v.len());
            if ty.len() >= 2 && ty[0] == '[' && ty[ty.len() - 1] == ']' {
                let inner = sub_chars(&ty, 1, ty.len() - 1);
                let t = text_of(&inner);
                ParamSpec { name, array: true, ty: parse_type_name(t.as_str()) }
            } else {
                let t = text_of(&ty);
                ParamSpec { name, array: false, ty: parse_type_name(t.as_str()) }
            }
        },
    }
}

/// Reads the tokens behind `fn NAME`: parameters, and the docstring behind
/// `--`.
pub fn parse_params(tokens: &[String]) -> (r: (Vec<ParamSpec>, Option<String>))
    ensures
        param_views(r.0@) == params_of(text::texts(tokens@)),
        fileset::opt_text(r.1) == doc_of(text::texts(tokens@)),
{
    let ghost all = text::texts(tokens@);
    let mut params: Vec<ParamSpec> = Vec::new();
    let mut i: usize = 0;
    assert(param_views(params@) =~= Seq::new(0, |k: int| param_of(all[k])));
    while i < tokens.len()
        invariant
            i <= tokens@.len(),
            all == text::texts(tokens@),
            doc_mark(all, 0) == doc_mark(all, i as int),
            param_views(params@) == Seq::new(i as nat, |k: int| param_of(all[k])),
        decreases tokens@.len() - i,
    {
        assert(all[i as int] == tokens@[i as int]@);
        if same(tokens[i].as_str(), "--") {
            let rest = tail_texts(tokens, i + 1);
            let doc = join_texts(&rest, " ");
            return (params, Some(doc));
        }
        let ghost before = params@;
        let p = parse_one_param(tokens[i].as_str());
        params.push(p);
        proof {
            assert(param_views(params@) =~= param_views(before).push(p@));
            assert(Seq::new((i + 1) as nat, |k: int| param_of(all[k])) =~= Seq::new(
                i as nat,
                |k: int| param_of(all[k]),
            ).push(p@));
        }
        i = i + 1;
    }
    (params, None)
}

/// A parameter is its name, and behind a colon its type, in brackets where it
/// is an array.
pub proof fn law_parameters_are_read(name: Seq<char>, ty: Seq<char>)
    requires
        forall|i: int| 0 <= i < name.len() ==> #[trigger] name[i] != ':',
        ty.len() > 0,
        ty[0] != '[',
    ensures
        param_of(name) == (ParamView { name, array: false, ty: None }),
        param_of(name + seq![':'] + ty) == (ParamView {
            name,
            array: false,
            ty: types::type_named(ty),
        }),
        param_of(name + seq![':', '['] + ty + seq![']']) == (ParamView {
            name,
            array: true,
            ty: types::type_named(ty),
        }),
{
    text::lemma_found_is_first(name, seq![':'], 0);
    match text::found_from(name, seq![':'], 0) {
        Some(j) => {
            assert(name.subrange(j, j + 1)[0] == name[j]);
        },
        None => {},
    }
    let a = name + seq![':'] + ty;
    let b = name + seq![':', '['] + ty + seq![']'];
    let n = name.len() as int;
    lemma_colon(a, n, 0);
    lemma_colon(b, n, 0);
    assert(a.take(n) =~= name);
    assert(a.skip(n + 1) =~= ty);
    assert(b.take(n) =~= name);
    let t = b.skip(n + 1);
    assert(t =~= seq!['['] + ty + seq![']']);
    assert(t.subrange(1, t.len() - 1) =~= ty);
}

proof fn lemma_colon(s: Seq<char>, n: int, i: int)
    requires
        0 <= i <= n < s.len(),
        s[n] == ':',
        forall|k: int| 0 <= k < n ==> #[trigger] s[k] != ':',
    ensures
        text::found_from(s, seq![':'], i) == Some(n),
    decreases n - i,
{
    let colon = seq![':'];
    if i < n {
        if text::occurs_at(s, colon, i) {
            assert(s.subrange(i, i + 1)[0] == s[i]);
        }
        lemma_colon(s, n, i + 1);
    } else {
        assert(s.subrange(n, n + 1) =~= colon);
        assert(text::occurs_at(s, colon, n));
    }
}

/// The four types are known by their names, and nothing else is a type.
pub proof fn law_types_are_known_by_name(name: Seq<char>)
    ensures
        types::type_named("int"@) == Some(types::TypeTag::Int),
        types::type_named("float"@) == Some(types::TypeTag::Float),
        types::type_named("bool"@) == Some(types::TypeTag::Bool),
        types::type_named("str"@) == Some(types::TypeTag::Str),
        name != "int"@ && name != "float"@ && name != "bool"@ && name != "str"@
            ==> types::type_named(name) is None,
{
    reveal_strlit("int");
    reveal_strlit("float");
    reveal_strlit("bool");
    reveal_strlit("str");
    assert("int"@.len() == 3 && "float"@.len() == 5 && "bool"@.len() == 4 && "str"@.len() == 3);
    assert("int"@[0] == 'i' && "str"@[0] == 's');
}

/// What stands before `--` are the parameters, and what stands behind it is
/// the docstring; without it there is none.
pub proof fn law_docstring_stands_behind_its_mark(
    params: Seq<Seq<char>>,
    words: Seq<Seq<char>>,
)
    requires
        forall|k: int| 0 <= k < params.len() ==> #[trigger] params[k] != "--"@,
    ensures
        doc_of(params) is None,
        params_of(params).len() == params.len(),
        doc_of(params + seq!["--"@] + words) == Some(text::joined(words, " "@)),
        params_of(params + seq!["--"@] + words).len() == params.len(),
        forall|k: int|
            0 <= k < params.len() ==> #[trigger] params_of(params + seq!["--"@] + words)[k]
                == param_of(params[k]),
{
    let n = params.len() as int;
    let all = params + seq!["--"@] + words;
    lemma_mark(params, n, 0);
    assert forall|k: int| 0 <= k < n implies #[trigger] all[k] != "--"@ by {
        assert(all[k] == params[k]);
    }
    assert(all[n] == "--"@);
    lemma_mark(all, n, 0);
    assert(all.skip(n + 1) =~= words);
}

proof fn lemma_mark(tokens: Seq<Seq<char>>, n: int, i: int)
    requires
        0 <= i <= n <= tokens.len(),
        forall|k: int| 0 <= k < n ==> #[trigger] tokens[k] != "--"@,
        n < tokens.len() ==> tokens[n] == "--"@,
    ensures
        doc_mark(tokens, i) == n,
    decreases n - i,
{
    if i < n {
        assert(tokens[i] != "--"@);
        lemma_mark(tokens, n, i + 1);
    }
}

} // verus!
