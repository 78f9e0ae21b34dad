use vstd::prelude::*;

use crate::ast::EBNFSuffix;
use crate::ir::{elements_ir_view, opt_view, AntlrIR, AntlrIRModel, ElementIR, ElementIRModel};
use crate::symbols::{id_lookup, strings_view};
use crate::text::{decimal, decimal_string};
use vstd::string::StringExecFns;

use crate::text::{str_to_upper, str_upper};

pub mod c;
pub mod rust;

verus! {

/// A target language of the generator.
#[derive(Clone, Copy, Debug, PartialEq, Eq, Structural)]
pub enum Language {
    C,
    Rust,
    Python,
}

/// A file the generator produces: where it goes and what it holds.
#[derive(Debug)]
pub struct OutputFile {
    path: String,
    content: String,
}

impl OutputFile {
    pub fn new(path: String, content: String) -> (f: OutputFile)
        ensures
            f.path_view() == path@,
            f.content_view() == content@,
    {
        OutputFile { path, content }
    }

    pub closed spec fn path_view(&self) -> Seq<char> {
        self.path@
    }

    pub closed spec fn content_view(&self) -> Seq<char> {
        self.content@
    }

    pub fn path(&self) -> (p: &String)
        ensures
            p@ == self.path_view(),
    {
        &self.path
    }

    pub fn content(&self) -> (c: &String)
        ensures
            c@ == self.content_view(),
    {
        &self.content
    }
}

/// The string in upper case.
pub fn uppercase(string: String) -> (s: String)
    ensures
        s@ == str_to_upper(string@),
{
    str_upper(string.as_str())
}

/// The name an element is declared under: that of the rule or token it refers
/// to, where the grammar has one; a character set has none.
pub open spec fn element_name_of(ir: AntlrIRModel, e: ElementIRModel) -> Option<Seq<char>> {
    match e {
        ElementIRModel::RuleAtom { id, .. } => if id < ir.rules.len() {
            Some(ir.rules[id as int].name)
        } else {
            None
        },
        ElementIRModel::TokenAtom { id, .. } => id_lookup(ir.symbols.tokens, id),
        ElementIRModel::CharSet { .. } => None,
    }
}

/// What opens the Rust type of an element in a generated parser: a boxed rule,
/// an optional boxed rule, or a vector of them; nothing for tokens and sets.
pub open spec fn element_prefix_of(e: ElementIRModel) -> Seq<char> {
    match e {
        ElementIRModel::RuleAtom { suffix, .. } => match suffix {
            None => "Box<"@,
            Some(EBNFSuffix::Optional) => "Option<Box<"@,
            Some(_) => "Vec<"@,
        },
        _ => Seq::empty(),
    }
}

/// What closes the Rust type that `element_prefix_of` opens.
pub open spec fn element_suffix_of(e: ElementIRModel) -> Seq<char> {
    match e {
        ElementIRModel::RuleAtom { suffix, .. } => match suffix {
            None => ">"@,
            Some(EBNFSuffix::Optional) => ">>"@,
            Some(_) => ">"@,
        },
        _ => Seq::empty(),
    }
}

pub fn element_prefix(e: &ElementIR) -> (s: String)
    ensures
        s@ == element_prefix_of(e@),
{
    match e {
        ElementIR::RuleAtom { .. } => match e.suffix() {
            Some(suffix) => match suffix {
                EBNFSuffix::Optional => String::from_str("Option<Box<"),
                EBNFSuffix::Plus | EBNFSuffix::Star => String::from_str("Vec<"),
            },
            None => String::from_str("Box<"),
        },
        ElementIR::TokenAtom { .. } => String::new(),
        ElementIR::CharSet { .. } => String::new(),
    }
}

pub fn element_suffix(e: &ElementIR) -> (s: String)
    ensures
        s@ == element_suffix_of(e@),
{
    match e {
        ElementIR::RuleAtom { .. } => match e.suffix() {
            Some(suffix) => match suffix {
                EBNFSuffix::Optional => String::from_str(">>"),
                EBNFSuffix::Plus | EBNFSuffix::Star => String::from_str(">"),
            },
            None => String::from_str(">"),
        },
        ElementIR::TokenAtom { .. } => String::new(),
        ElementIR::CharSet { .. } => String::new(),
    }
}

/// An element's name followed by its position.
pub open spec fn indexed_name(name: Seq<char>, idx: usize) -> Seq<char> {
    name + "_"@ + decimal(idx as nat)
}

/// The name an element is declared under, where it has one.
pub fn element_name(ir: &AntlrIR, element: &ElementIR) -> (r: Option<String>)
    ensures
        opt_view(r) == element_name_of(ir@, element@),
{
    match element {
        ElementIR::RuleAtom { id, .. } => match ir.get_rule(*id) {
            Some(rule) => Some(rule.name().clone()),
            None => None,
        },
        ElementIR::TokenAtom { id, .. } => ir.symbols().get_token_name(*id),
        ElementIR::CharSet { .. } => None,
    }
}

/// The name of an element followed by its position, where it has a name.
pub fn element_name_indexed(ir: &AntlrIR, element: &ElementIR, element_idx: usize) -> (r: Option<
    String,
>)
    ensures
        opt_view(r) == match element_name_of(ir@, element@) {
            Some(n) => Some(indexed_name(n, element_idx)),
            None => None,
        },
{
    match element_name(ir, element) {
        Some(mut name) => {
            name.append("_");
            let digits = decimal_string(element_idx);
            name.append(digits.as_str());
            Some(name)
        },
        None => None,
    }
}

/// Strings put end to end with `sep` between each two.
pub open spec fn joined(parts: Seq<Seq<char>>, sep: Seq<char>) -> Seq<char>
    decreases parts.len(),
{
    if parts.len() == 0 {
        Seq::empty()
    } else if parts.len() == 1 {
        parts[0]
    } else {
        joined(parts.drop_last(), sep) + sep + parts.last()
    }
}

/// The strings put end to end with `sep` between each two.
pub fn join(parts: &Vec<String>, sep: &str) -> (s: String)
    ensures
        s@ == joined(strings_view(parts@), sep@),
{
    let ghost ps = strings_view(parts@);
    let mut out = String::new();
    let mut i: usize = 0;
    while i < parts.len()
        invariant
            ps == strings_view(parts@),
            i <= parts.len(),
            out@ == joined(ps.take(i as int), sep@),
        decreases parts.len() - i,
    {
        if i > 0 {
            out.append(sep);
        }
        out.append(parts[i].as_str());
        proof {
            let t = ps.take(i + 1);
            assert(t.drop_last() =~= ps.take(i as int));
            assert(t.last() == ps[i as int]);
            if i == 0 {
                assert(t.len() == 1);
                assert(joined(ps.take(0), sep@) =~= Seq::<char>::empty());
                assert(out@ =~= t[0]);
            }
        }
        i += 1;
    }
    assert(ps.take(parts.len() as int) =~= ps);
    out
}

/// The indexed names of a list of elements, skipping those without a name.
pub open spec fn element_names_of(ir: AntlrIRModel, es: Seq<ElementIRModel>) -> Seq<Seq<char>>
    decreases es.len(),
{
    if es.len() == 0 {
        Seq::empty()
    } else {
        element_names_of(ir, es.drop_last()) + match element_name_of(ir, es.last()) {
            Some(n) => seq![indexed_name(n, (es.len() - 1) as usize)],
            None => Seq::empty(),
        }
    }
}

/// The indexed names of the elements, in order, skipping those without a name.
pub fn element_names(ir: &AntlrIR, elements: &Vec<ElementIR>) -> (v: Vec<String>)
    ensures
        strings_view(v@) == element_names_of(ir@, elements_ir_view(elements@)),
{
    let ghost es = elements_ir_view(elements@);
    let mut out: Vec<String> = Vec::new();
    let mut i: usize = 0;
    assert(es.take(0) =~= Seq::<ElementIRModel>::empty());
    while i < elements.len()
        invariant
            es == elements_ir_view(elements@),
            i <= elements.len(),
            strings_view(out@) == element_names_of(ir@, es.take(i as int)),
        decreases elements.len() - i,
    {
        let ghost before = strings_view(out@);
        proof {
            let t = es.take(i + 1);
            assert(t.drop_last() =~= es.take(i as int));
            assert(t.last() == es[i as int]);
        }
        match element_name_indexed(ir, &elements[i], i) {
            Some(d) => {
                out.push(d);
                assert(strings_view(out@) =~= before + seq![d@]);
            },
            None => {
                assert(strings_view(out@) =~= before + Seq::<Seq<char>>::empty());
            },
        }
        i += 1;
    }
    assert(es.take(elements.len() as int) =~= es);
    out
}


/// A character is in a joined text exactly when it is in one of the parts.
pub proof fn lemma_contains_concat(a: Seq<char>, b: Seq<char>, c: char)
    ensures
        (a + b).contains(c) <==> a.contains(c) || b.contains(c),
{
    if (a + b).contains(c) {
        let k = choose|k: int| 0 <= k < (a + b).len() && (a + b)[k] == c;
        if k < a.len() {
            assert(a[k] == c);
        } else {
            assert(b[k - a.len()] == c);
        }
    }
    if a.contains(c) {
        let k = choose|k: int| 0 <= k < a.len() && a[k] == c;
        assert((a + b)[k] == c);
    }
    if b.contains(c) {
        let k = choose|k: int| 0 <= k < b.len() && b[k] == c;
        assert((a + b)[a.len() + k] == c);
    }
}

/// The decimal notation of a number holds digits only.
pub proof fn lemma_decimal_digits(n: nat)
    ensures
        forall|k: int| 0 <= k < decimal(n).len() ==> '0' <= #[trigger] decimal(n)[k] <= '9',
    decreases n,
{
    if n >= 10 {
        lemma_decimal_digits(n / 10);
        assert forall|k: int| 0 <= k < decimal(n).len() implies '0' <= #[trigger] decimal(n)[k] <= '9' by {
            if k < decimal(n / 10).len() {
                assert(decimal(n)[k] == decimal(n / 10)[k]);
            }
        }
    }
}

/// An indexed name holds a character other than a digit or `_` only where
/// the name does.
pub proof fn lemma_indexed_name_chars(name: Seq<char>, idx: usize, c: char)
    requires
        !name.contains(c),
        c != '_',
        !('0' <= c <= '9'),
    ensures
        !indexed_name(name, idx).contains(c),
{
    reveal_strlit("_");
    lemma_decimal_digits(idx as nat);
    lemma_contains_concat(name, "_"@, c);
    lemma_contains_concat(name + "_"@, decimal(idx as nat), c);
    assert("_"@.len() == 1);
    if "_"@.contains(c) {
        let k = choose|k: int| 0 <= k < "_"@.len() && "_"@[k] == c;
        assert(k == 0);
    }
    if decimal(idx as nat).contains(c) {
        let k = choose|k: int| 0 <= k < decimal(idx as nat).len() && decimal(idx as nat)[k] == c;
        assert('0' <= decimal(idx as nat)[k] <= '9');
    }
}


/// `w` occurs in `s` as a run of consecutive characters.
pub open spec fn has_infix(s: Seq<char>, w: Seq<char>) -> bool {
    exists|i: int| 0 <= i && i + w.len() <= s.len() && #[trigger] s.subrange(i, i + w.len()) == w
}

pub proof fn lemma_infix_at(s: Seq<char>, w: Seq<char>, i: int)
    requires
        0 <= i,
        i + w.len() <= s.len(),
        s.subrange(i, i + w.len()) =~= w,
    ensures
        has_infix(s, w),
{
}

/// What occurs in a text occurs in the text with more before or after it.
pub proof fn lemma_infix_extend(a: Seq<char>, m: Seq<char>, b: Seq<char>, w: Seq<char>)
    requires
        has_infix(m, w),
    ensures
        has_infix(a + m, w),
        has_infix(m + b, w),
{
    let i = choose|i: int| 0 <= i && i + w.len() <= m.len() && #[trigger] m.subrange(i, i + w.len()) == w;
    assert((a + m).subrange(a.len() + i, a.len() + i + w.len()) =~= m.subrange(i, i + w.len()));
    lemma_infix_at(a + m, w, a.len() + i);
    assert((m + b).subrange(i, i + w.len()) =~= m.subrange(i, i + w.len()));
    lemma_infix_at(m + b, w, i);
}

} // verus!
