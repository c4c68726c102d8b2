//! Extraction of constant definitions and dependency declarations from a
//! build file's syntax tree.

use vstd::prelude::*;
use vstd::string::StrSliceExecFns;
use vstd::string::StringSliceAdditionalSpecFns;
use vstd::utf8::{decode_utf8, encode_utf8_decode_utf8, valid_utf8};

use crate::assoc::{
    lemma_pairs_to_map_dom, lemma_pairs_to_map_get, lemma_pairs_to_map_update, pairs_to_map,
    pairs_unique,
};
use crate::dependency_resolver::{Location, LocationView};
use crate::model::{Artifact, Group};
use crate::span::Span;
use crate::tree::{
    lemma_children_views, node_spans_within, parse_tree, scala_parse, NodeView, SynNode,
};
use crate::version::{parse_version, Version, VersionView};

verus! {

/// A value paired with the exact place it was read from.
#[derive(Debug)]
pub struct WithLocation<T> {
    pub value: T,
    pub location: Location,
}

/// Mathematical model of [`WithLocation`].
pub struct WithLocationView<V> {
    pub value: V,
    pub location: LocationView,
}

impl<T: DeepView> View for WithLocation<T> {
    type V = WithLocationView<T::V>;

    open spec fn view(&self) -> WithLocationView<T::V> {
        WithLocationView { value: self.value.deep_view(), location: self.location@ }
    }
}

impl<T: DeepView> DeepView for WithLocation<T> {
    type V = WithLocationView<T::V>;

    open spec fn deep_view(&self) -> WithLocationView<T::V> {
        self.view()
    }
}

impl<T: Clone> Clone for WithLocation<T> {
    fn clone(&self) -> (r: Self)
        ensures
            call_ensures(T::clone, (&self.value,), r.value),
            r.location == self.location,
    {
        WithLocation { value: self.value.clone(), location: self.location.clone() }
    }
}

/// One dependency coordinate read at one textual site.
#[derive(Debug)]
pub struct Dependency {
    pub group: Group,
    pub artifact: Artifact,
    pub version: WithLocation<Version>,
}

/// Mathematical model of [`Dependency`].
pub struct DependencyView {
    pub group: Seq<char>,
    pub artifact: Seq<char>,
    pub version: WithLocationView<VersionView>,
}

impl View for Dependency {
    type V = DependencyView;

    open spec fn view(&self) -> DependencyView {
        DependencyView {
            group: self.group@,
            artifact: self.artifact@,
            version: self.version@,
        }
    }
}

impl DeepView for Dependency {
    type V = DependencyView;

    open spec fn deep_view(&self) -> DependencyView {
        self.view()
    }
}

impl Clone for Dependency {
    fn clone(&self) -> (r: Self)
        ensures
            r@ == self@,
    {
        Dependency {
            group: self.group.clone(),
            artifact: self.artifact.clone(),
            version: WithLocation {
                value: self.version.value.clone(),
                location: self.version.location.clone(),
            },
        }
    }
}

impl PartialEq for Dependency {
    fn eq(&self, other: &Self) -> (r: bool) {
        self.group == other.group && self.artifact == other.artifact && self.version.value
            == other.version.value && self.version.location == other.version.location
    }
}

impl vstd::std_specs::cmp::PartialEqSpecImpl for Dependency {
    open spec fn obeys_eq_spec() -> bool {
        true
    }

    open spec fn eq_spec(&self, other: &Self) -> bool {
        self@ == other@
    }
}

// ---------------------------------------------------------------------
// Text extraction.
// ---------------------------------------------------------------------

/// All leading quote bytes removed.
pub open spec fn trim_leading_quotes(s: Seq<u8>) -> Seq<u8>
    decreases s.len(),
{
    if s.len() > 0 && s[0] == 34 {
        trim_leading_quotes(s.drop_first())
    } else {
        s
    }
}

/// All trailing quote bytes removed.
pub open spec fn trim_trailing_quotes(s: Seq<u8>) -> Seq<u8>
    decreases s.len(),
{
    if s.len() > 0 && s.last() == 34 {
        trim_trailing_quotes(s.drop_last())
    } else {
        s
    }
}

/// The text with every quote stripped from both ends.
pub open spec fn trim_quotes(s: Seq<u8>) -> Seq<u8> {
    trim_trailing_quotes(trim_leading_quotes(s))
}

/// The bytes a node's text reduces to: its byte range, quotes stripped.
pub open spec fn spec_text_bytes(code: Seq<u8>, start: int, end: int) -> Seq<u8> {
    trim_quotes(code.subrange(start, end))
}

pub open spec fn spec_text_valid(code: Seq<u8>, start: int, end: int) -> bool {
    valid_utf8(spec_text_bytes(code, start, end))
}

/// The text a node reduces to, as characters.
pub open spec fn spec_text(code: Seq<u8>, start: int, end: int) -> Seq<char> {
    decode_utf8(spec_text_bytes(code, start, end))
}

fn bytes_eq(a: &[u8], b: &[u8]) -> (r: bool)
    ensures
        r == (a@ == b@),
{
    if a.len() != b.len() {
        proof {
            if a@ == b@ {
                assert(a@.len() == b@.len());
            }
        }
        return false;
    }
    let n = a.len();
    let mut i: usize = 0;
    while i < n
        invariant
            0 <= i <= n,
            n == a@.len() == b@.len(),
            forall|j: int| 0 <= j < i ==> a@[j] == b@[j],
        decreases n - i,
    {
        if a[i] != b[i] {
            proof {
                if a@ == b@ {
                    assert(a@[i as int] == b@[i as int]);
                }
            }
            return false;
        }
        i = i + 1;
    }
    proof {
        assert(a@ =~= b@);
    }
    true
}

/// Text equality, decided on the UTF-8 bytes.
pub(crate) fn str_eq(a: &str, b: &str) -> (r: bool)
    ensures
        r == (a@ == b@),
{
    let r = bytes_eq(a.as_bytes(), b.as_bytes());
    proof {
        if a.spec_bytes() == b.spec_bytes() {
            encode_utf8_decode_utf8(a@);
            encode_utf8_decode_utf8(b@);
        }
    }
    r
}

/// Relies on core::str::from_utf8: it succeeds exactly on well-formed
/// UTF-8, and the returned text's bytes are the input bytes.
#[verifier::external_body]
fn utf8_str(bytes: &[u8]) -> (r: Option<&str>)
    ensures
        r is Some <==> valid_utf8(bytes@),
        r matches Some(s) ==> s.spec_bytes() == bytes@,
{
    core::str::from_utf8(bytes).ok()
}

/// A node's text: its byte range with surrounding quotes stripped, read
/// as characters.  Nothing is returned when those bytes are not
/// well-formed text.
fn extract_text(code: &[u8], start: usize, end: usize) -> (r: Option<String>)
    requires
        start <= end <= code@.len(),
    ensures
        match r {
            Some(s) => spec_text_valid(code@, start as int, end as int) && s@ == spec_text(
                code@,
                start as int,
                end as int,
            ),
            None => !spec_text_valid(code@, start as int, end as int),
        },
{
    let ghost seg = code@.subrange(start as int, end as int);
    let mut a = start;
    let mut b = end;
    while a < b && code[a] == 34
        invariant
            start <= a <= b == end <= code@.len(),
            trim_leading_quotes(seg) == trim_leading_quotes(
                code@.subrange(a as int, end as int),
            ),
        decreases b - a,
    {
        proof {
            assert(code@.subrange(a as int, end as int).drop_first() =~= code@.subrange(
                a as int + 1,
                end as int,
            ));
        }
        a = a + 1;
    }
    proof {
        assert(trim_leading_quotes(seg) == code@.subrange(a as int, end as int));
    }
    while a < b && code[b - 1] == 34
        invariant
            start <= a <= b <= end <= code@.len(),
            trim_leading_quotes(seg) == code@.subrange(a as int, end as int),
            trim_trailing_quotes(code@.subrange(a as int, end as int)) == trim_trailing_quotes(
                code@.subrange(a as int, b as int),
            ),
        decreases b - a,
    {
        proof {
            assert(code@.subrange(a as int, b as int).drop_last() =~= code@.subrange(
                a as int,
                b as int - 1,
            ));
        }
        b = b - 1;
    }
    proof {
        assert(trim_quotes(seg) == code@.subrange(a as int, b as int));
    }
    let slice = vstd::slice::slice_subrange(code, a, b);
    match utf8_str(slice) {
        Some(st) => {
            proof {
                encode_utf8_decode_utf8(st@);
            }
            Some(st.to_owned())
        },
        None => None,
    }
}

// ---------------------------------------------------------------------
// The symbol table: every named constant of one file.
// ---------------------------------------------------------------------

/// The named constants of one file: name, literal text, and where the
/// text stands.  Nested definitions share this one flat table, and a
/// later definition of a name overwrites an earlier one.
#[derive(Debug)]
pub struct SymbolTable {
    entries: Vec<(String, WithLocation<String>)>,
}

pub open spec fn symbol_views(es: Seq<(String, WithLocation<String>)>) -> Seq<
    (Seq<char>, WithLocationView<Seq<char>>),
> {
    es.map_values(|e: (String, WithLocation<String>)| (e.0@, e.1@))
}

impl View for SymbolTable {
    type V = Map<Seq<char>, WithLocationView<Seq<char>>>;

    closed spec fn view(&self) -> Map<Seq<char>, WithLocationView<Seq<char>>> {
        pairs_to_map(symbol_views(self.entries@))
    }
}

impl SymbolTable {
    /// Each name stands in at most one slot of the backing list.
    pub closed spec fn wf(&self) -> bool {
        pairs_unique(symbol_views(self.entries@))
    }

    pub fn new() -> (r: SymbolTable)
        ensures
            r@ == Map::<Seq<char>, WithLocationView<Seq<char>>>::empty(),
            r.wf(),
    {
        let r = SymbolTable { entries: Vec::new() };
        proof {
            assert(symbol_views(r.entries@) =~= Seq::empty());
        }
        r
    }

    /// The entries as they are stored, one per name.
    pub fn iter(&self) -> (r: &Vec<(String, WithLocation<String>)>)
        ensures
            pairs_unique(symbol_views(r@)) == self.wf(),
            pairs_to_map(symbol_views(r@)) == self@,
    {
        &self.entries
    }

    /// Define a name, overwriting any earlier definition of it.
    pub fn insert(&mut self, name: String, value: WithLocation<String>)
        requires
            old(self).wf(),
        ensures
            final(self).wf(),
            final(self)@ == old(self)@.insert(name@, value@),
    {
        let ghost kv = symbol_views(old(self).entries@);
        let n = self.entries.len();
        let mut i: usize = 0;
        while i < n
            invariant
                0 <= i <= n == self.entries@.len(),
                self.entries@ == old(self).entries@,
                kv == symbol_views(self.entries@),
                pairs_unique(kv),
                old(self)@ == pairs_to_map(kv),
                forall|j: int| 0 <= j < i ==> (#[trigger] kv[j]).0 != name@,
            decreases n - i,
        {
            proof {
                assert(kv[i as int] == (self.entries@[i as int].0@, self.entries@[i as int].1@));
            }
            if str_eq(self.entries[i].0.as_str(), name.as_str()) {
                self.entries[i].1 = value;
                proof {
                    let kv2 = symbol_views(self.entries@);
                    assert forall|j: int| 0 <= j < kv2.len() implies kv2[j] == kv.update(
                        i as int,
                        (kv[i as int].0, self.entries@[i as int].1@),
                    )[j] by {
                        assert(kv2[j] == (self.entries@[j].0@, self.entries@[j].1@));
                        assert(kv[j] == (old(self).entries@[j].0@, old(self).entries@[j].1@));
                    }
                    assert(kv2 =~= kv.update(
                        i as int,
                        (kv[i as int].0, self.entries@[i as int].1@),
                    ));
                    lemma_pairs_to_map_update(kv, i as int, self.entries@[i as int].1@);
                    assert forall|a: int, b: int|
                        0 <= a < b < kv2.len() implies (#[trigger] kv2[a]).0 != (
                    #[trigger] kv2[b]).0 by {
                        assert(kv2[a].0 == kv[a].0 && kv2[b].0 == kv[b].0);
                    }
                }
                return ;
            }
            i = i + 1;
        }
        self.entries.push((name, value));
        proof {
            let kv2 = symbol_views(self.entries@);
            assert forall|j: int| 0 <= j < kv2.len() implies kv2[j] == kv.push(
                (self.entries@[kv.len() as int].0@, self.entries@[kv.len() as int].1@),
            )[j] by {
                assert(kv2[j] == (self.entries@[j].0@, self.entries@[j].1@));
                if j < kv.len() {
                    assert(kv[j] == (old(self).entries@[j].0@, old(self).entries@[j].1@));
                }
            }
            assert(kv2 =~= kv.push(
                (self.entries@[kv.len() as int].0@, self.entries@[kv.len() as int].1@),
            ));
            assert(kv2.drop_last() =~= kv);
            assert forall|a: int, b: int| 0 <= a < b < kv2.len() implies (#[trigger] kv2[a]).0
                != (#[trigger] kv2[b]).0 by {
                if b < kv.len() {
                    assert(kv2[a] == kv[a] && kv2[b] == kv[b]);
                } else {
                    assert(kv2[a] == kv[a] && kv2[b].0 == name@);
                }
            }
        }
    }

    /// Look a name up by exact match.
    #[verifier::loop_isolation(false)]
    pub fn get(&self, name: &str) -> (r: Option<&WithLocation<String>>)
        requires
            self.wf(),
        ensures
            match r {
                Some(v) => self@.dom().contains(name@) && v@ == self@[name@],
                None => !self@.dom().contains(name@),
            },
    {
        let ghost kv = symbol_views(self.entries@);
        proof {
            lemma_pairs_to_map_dom(kv);
        }
        let n = self.entries.len();
        let mut i: usize = 0;
        while i < n
            invariant
                0 <= i <= n == self.entries@.len(),
                kv == symbol_views(self.entries@),
                pairs_unique(kv),
                self@ == pairs_to_map(kv),
                forall|j: int| 0 <= j < i ==> (#[trigger] kv[j]).0 != name@,
            decreases n - i,
        {
            proof {
                assert(kv[i as int] == (self.entries@[i as int].0@, self.entries@[i as int].1@));
            }
            if str_eq(self.entries[i].0.as_str(), name) {
                proof {
                    lemma_pairs_to_map_get(kv, i as int);
                }
                return Some(&self.entries[i].1);
            }
            i = i + 1;
        }
        proof {
            lemma_pairs_to_map_dom(kv);
        }
        None
    }
}

// ---------------------------------------------------------------------
// Constant definitions.
// ---------------------------------------------------------------------

/// The first child at or after `from` whose kind is `identifier`;
/// anything before it is a modifier and is skipped.
pub open spec fn find_ident(children: Seq<NodeView>, from: int) -> Option<int>
    decreases children.len() - from,
{
    if from < 0 || from >= children.len() {
        None
    } else if children[from].kind == "identifier"@ {
        Some(from)
    } else {
        find_ident(children, from + 1)
    }
}

/// What one constant-definition node defines: the identifier child names
/// the constant, and the child right after it is the bound expression,
/// taken verbatim as text together with its place.
pub open spec fn spec_parse_val(source: Seq<char>, node: NodeView, code: Seq<u8>) -> Option<
    (Seq<char>, WithLocationView<Seq<char>>),
> {
    match find_ident(node.children, 0) {
        None => None,
        Some(i) => {
            if i + 1 < node.children.len() {
                let ident = node.children[i];
                let rhs = node.children[i + 1];
                if spec_text_valid(code, ident.start as int, ident.end as int) && spec_text_valid(
                    code,
                    rhs.start as int,
                    rhs.end as int,
                ) {
                    Some(
                        (
                            spec_text(code, ident.start as int, ident.end as int),
                            WithLocationView {
                                value: spec_text(code, rhs.start as int, rhs.end as int),
                                location: LocationView {
                                    path: source,
                                    span: Span { start: rhs.start, end: rhs.end },
                                },
                            },
                        ),
                    )
                } else {
                    None
                }
            } else {
                None
            }
        },
    }
}

/// The table after walking one node: a readable constant definition is
/// recorded and not descended into; everything else is searched child by
/// child, left to right, nested definitions landing in the same table.
pub open spec fn spec_parse_vals(
    source: Seq<char>,
    node: NodeView,
    code: Seq<u8>,
    tbl: Map<Seq<char>, WithLocationView<Seq<char>>>,
) -> Map<Seq<char>, WithLocationView<Seq<char>>>
    decreases node, 1int,
{
    if node.kind == "val_definition"@ {
        match spec_parse_val(source, node, code) {
            Some(nv) => tbl.insert(nv.0, nv.1),
            None => spec_parse_vals_seq(source, node.children, code, tbl),
        }
    } else {
        spec_parse_vals_seq(source, node.children, code, tbl)
    }
}

pub open spec fn spec_parse_vals_seq(
    source: Seq<char>,
    children: Seq<NodeView>,
    code: Seq<u8>,
    tbl: Map<Seq<char>, WithLocationView<Seq<char>>>,
) -> Map<Seq<char>, WithLocationView<Seq<char>>>
    decreases children, 0int,
{
    if children.len() == 0 {
        tbl
    } else {
        spec_parse_vals(
            source,
            children.last(),
            code,
            spec_parse_vals_seq(source, children.drop_last(), code, tbl),
        )
    }
}

proof fn lemma_find_ident(children: Seq<NodeView>, from: int)
    requires
        0 <= from <= children.len(),
    ensures
        match find_ident(children, from) {
            None => forall|i: int| from <= i < children.len() ==> (#[trigger] children[i]).kind
                != "identifier"@,
            Some(i) => from <= i < children.len() && children[i].kind == "identifier"@ && forall|
                j: int,
            | from <= j < i ==> (#[trigger] children[j]).kind != "identifier"@,
        },
    decreases children.len() - from,
{
    if from < children.len() && children[from].kind != "identifier"@ {
        lemma_find_ident(children, from + 1);
    }
}

proof fn lemma_find_ident_at(children: Seq<NodeView>, from: int, i: int)
    requires
        0 <= from <= i < children.len(),
        children[i].kind == "identifier"@,
        forall|j: int| from <= j < i ==> (#[trigger] children[j]).kind != "identifier"@,
    ensures
        find_ident(children, from) == Some(i),
    decreases i - from,
{
    if from < i {
        lemma_find_ident_at(children, from + 1, i);
    }
}

/// One constant definition, read off a definition node.
fn parse_val(source: &str, node: &SynNode, code: &[u8]) -> (r: Option<
    (String, WithLocation<String>),
>)
    requires
        node_spans_within(node@, code@.len()),
    ensures
        match r {
            Some(p) => spec_parse_val(source@, node@, code@) == Some((p.0@, p.1@)),
            None => spec_parse_val(source@, node@, code@) is None,
        },
{
    proof {
        lemma_children_views(node.children@);
    }
    let n = node.children.len();
    let mut i: usize = 0;
    // skip modifier tokens in front of the bound identifier
    while i < n && !str_eq(node.children[i].kind.as_str(), "identifier")
        invariant
            0 <= i <= n == node.children@.len(),
            node@.children.len() == n,
            forall|j: int| 0 <= j < node.children@.len() ==> #[trigger] node@.children[j]
                == node.children@[j]@,
            forall|j: int| 0 <= j < i ==> (#[trigger] node@.children[j]).kind != "identifier"@,
        decreases n - i,
    {
        i = i + 1;
    }
    proof {
        lemma_find_ident(node@.children, 0);
    }
    if i >= n {
        return None;
    }
    proof {
        assert(node@.children[i as int].kind == "identifier"@);
        lemma_find_ident_at(node@.children, 0, i as int);
    }
    if i + 1 >= n {
        return None;
    }
    let ident = &node.children[i];
    let rhs = &node.children[i + 1];
    proof {
        assert(node@.children[i as int] == ident@);
        assert(node@.children[i as int + 1] == rhs@);
        assert(node_spans_within(ident@, code@.len()));
        assert(node_spans_within(rhs@, code@.len()));
    }
    let name = match extract_text(code, ident.start, ident.end) {
        Some(t) => t,
        None => {
            return None;
        },
    };
    let value = match extract_text(code, rhs.start, rhs.end) {
        Some(t) => t,
        None => {
            return None;
        },
    };
    let location = Location::new(source.to_owned(), Span::new(rhs.start, rhs.end));
    Some((name, WithLocation { value, location }))
}

/// Walk one node, recording every constant definition under it.
fn parse_vals(source: &str, node: &SynNode, code: &[u8], vals: &mut SymbolTable)
    requires
        node_spans_within(node@, code@.len()),
        old(vals).wf(),
    ensures
        final(vals).wf(),
        final(vals)@ == spec_parse_vals(source@, node@, code@, old(vals)@),
    decreases *node,
{
    proof {
        lemma_children_views(node.children@);
    }
    if str_eq(node.kind.as_str(), "val_definition") {
        match parse_val(source, node, code) {
            Some((name, value)) => {
                vals.insert(name, value);
                return ;
            },
            None => {},
        }
    }
    let ghost tbl0 = vals@;
    let n = node.children.len();
    let mut i: usize = 0;
    proof {
        assert(node@.children.take(0) =~= Seq::<NodeView>::empty());
    }
    while i < n
        invariant
            0 <= i <= n == node.children@.len(),
            node@.children.len() == n,
            node_spans_within(node@, code@.len()),
            forall|j: int| 0 <= j < node.children@.len() ==> #[trigger] node@.children[j]
                == node.children@[j]@,
            vals.wf(),
            vals@ == spec_parse_vals_seq(source@, node@.children.take(i as int), code@, tbl0),
        decreases n - i,
    {
        proof {
            assert(decreases_to!(*node => node.children));
            assert(decreases_to!(node.children => node.children@));
            assert(decreases_to!(node.children@ => node.children@[i as int]));
            assert(node@.children[i as int] == node.children@[i as int]@);
            assert(node_spans_within(node@.children[i as int], code@.len()));
        }
        parse_vals(source, &node.children[i], code, vals);
        proof {
            assert(node@.children.take(i as int + 1).drop_last() =~= node@.children.take(
                i as int,
            ));
            assert(node@.children.take(i as int + 1).last() == node@.children[i as int]);
        }
        i = i + 1;
    }
    proof {
        assert(node@.children.take(n as int) =~= node@.children);
    }
}

// ---------------------------------------------------------------------
// Dependency declarations.
// ---------------------------------------------------------------------

/// Nothing but separator characters.
pub open spec fn all_percents(s: Seq<char>) -> bool {
    forall|i: int| 0 <= i < s.len() ==> s[i] == '%'
}

pub open spec fn is_infix3(n: NodeView) -> bool {
    n.kind == "infix_expression"@ && n.children.len() == 3
}

/// The two-segment declaration shape: `"group" <sep> "artifact" <sep>
/// version`, both separators structural operator tokens.
pub open spec fn dep_shape_two(n: NodeView) -> bool {
    &&& is_infix3(n)
    &&& is_infix3(n.children[0])
    &&& n.children[0].children[0].kind == "string"@
    &&& n.children[0].children[1].kind == "operator_identifier"@
    &&& n.children[0].children[2].kind == "string"@
    &&& n.children[1].kind == "operator_identifier"@
}

/// The three-segment shape, where the group is the right operand of one
/// more nested operator expression headed by an identifier.
pub open spec fn dep_shape_three(n: NodeView) -> bool {
    &&& is_infix3(n)
    &&& is_infix3(n.children[0])
    &&& is_infix3(n.children[0].children[0])
    &&& n.children[0].children[0].children[0].kind == "identifier"@
    &&& n.children[0].children[0].children[1].kind == "operator_identifier"@
    &&& n.children[0].children[0].children[2].kind == "string"@
}

/// The last identifier among a node's children: how a dotted reference's
/// final segment is picked out.
pub open spec fn last_ident(children: Seq<NodeView>) -> Option<int>
    decreases children.len(),
{
    if children.len() == 0 {
        None
    } else if children.last().kind == "identifier"@ {
        Some(children.len() - 1)
    } else {
        last_ident(children.drop_last())
    }
}

/// How the version operand resolves: a literal in place, an identifier
/// through the symbol table, a dotted reference through its last segment;
/// an identifier with no definition resolves to nothing.
pub open spec fn spec_resolve_version(
    source: Seq<char>,
    v: NodeView,
    code: Seq<u8>,
    tbl: Map<Seq<char>, WithLocationView<Seq<char>>>,
) -> Option<WithLocationView<VersionView>> {
    if v.kind == "string"@ {
        if spec_text_valid(code, v.start as int, v.end as int) {
            Some(
                WithLocationView {
                    value: parse_version(spec_text(code, v.start as int, v.end as int)),
                    location: LocationView {
                        path: source,
                        span: Span { start: v.start, end: v.end },
                    },
                },
            )
        } else {
            None
        }
    } else if v.kind == "identifier"@ {
        spec_lookup_version(v, code, tbl)
    } else {
        match last_ident(v.children) {
            None => None,
            Some(i) => spec_lookup_version(v.children[i], code, tbl),
        }
    }
}

/// An identifier node resolved through the symbol table.
pub open spec fn spec_lookup_version(
    ident: NodeView,
    code: Seq<u8>,
    tbl: Map<Seq<char>, WithLocationView<Seq<char>>>,
) -> Option<WithLocationView<VersionView>> {
    if spec_text_valid(code, ident.start as int, ident.end as int) {
        let name = spec_text(code, ident.start as int, ident.end as int);
        if tbl.dom().contains(name) {
            Some(
                WithLocationView {
                    value: parse_version(tbl[name].value),
                    location: tbl[name].location,
                },
            )
        } else {
            None
        }
    } else {
        None
    }
}

/// The record one declaration node yields, if it is a declaration: both
/// separators must be runs of separator characters, and the version
/// operand must resolve.
pub open spec fn spec_match_dep(
    source: Seq<char>,
    n: NodeView,
    code: Seq<u8>,
    tbl: Map<Seq<char>, WithLocationView<Seq<char>>>,
) -> Option<DependencyView> {
    if dep_shape_two(n) {
        spec_build_dep(
            source,
            n.children[0].children[0],
            n.children[0].children[1],
            n.children[0].children[2],
            n.children[1],
            n.children[2],
            code,
            tbl,
        )
    } else if dep_shape_three(n) {
        spec_build_dep(
            source,
            n.children[0].children[0].children[2],
            n.children[0].children[1],
            n.children[0].children[2],
            n.children[1],
            n.children[2],
            code,
            tbl,
        )
    } else {
        None
    }
}

pub open spec fn spec_build_dep(
    source: Seq<char>,
    group: NodeView,
    percents: NodeView,
    artifact: NodeView,
    percent: NodeView,
    version: NodeView,
    code: Seq<u8>,
    tbl: Map<Seq<char>, WithLocationView<Seq<char>>>,
) -> Option<DependencyView> {
    if spec_text_valid(code, percents.start as int, percents.end as int) && all_percents(
        spec_text(code, percents.start as int, percents.end as int),
    ) && spec_text_valid(code, percent.start as int, percent.end as int) && all_percents(
        spec_text(code, percent.start as int, percent.end as int),
    ) && spec_text_valid(code, group.start as int, group.end as int) && spec_text_valid(
        code,
        artifact.start as int,
        artifact.end as int,
    ) {
        match spec_resolve_version(source, version, code, tbl) {
            None => None,
            Some(wl) => Some(
                DependencyView {
                    group: spec_text(code, group.start as int, group.end as int),
                    artifact: spec_text(code, artifact.start as int, artifact.end as int),
                    version: wl,
                },
            ),
        }
    } else {
        None
    }
}

/// Every record under one node, the node's own before its children's,
/// children left to right.
pub open spec fn spec_deps(
    source: Seq<char>,
    n: NodeView,
    code: Seq<u8>,
    tbl: Map<Seq<char>, WithLocationView<Seq<char>>>,
) -> Seq<DependencyView>
    decreases n, 1int,
{
    (match spec_match_dep(source, n, code, tbl) {
        Some(d) => seq![d],
        None => Seq::empty(),
    }) + spec_deps_seq(source, n.children, code, tbl)
}

pub open spec fn spec_deps_seq(
    source: Seq<char>,
    children: Seq<NodeView>,
    code: Seq<u8>,
    tbl: Map<Seq<char>, WithLocationView<Seq<char>>>,
) -> Seq<DependencyView>
    decreases children, 0int,
{
    if children.len() == 0 {
        Seq::empty()
    } else {
        spec_deps_seq(source, children.drop_last(), code, tbl) + spec_deps(
            source,
            children.last(),
            code,
            tbl,
        )
    }
}

/// Whether every character of a node's text is a separator character.
#[verifier::loop_isolation(false)]
fn text_all_percents(code: &[u8], start: usize, end: usize) -> (r: bool)
    requires
        start <= end <= code@.len(),
    ensures
        r == (spec_text_valid(code@, start as int, end as int) && all_percents(
            spec_text(code@, start as int, end as int),
        )),
{
    let t = match extract_text(code, start, end) {
        Some(t) => t,
        None => {
            return false;
        },
    };
    let n = t.as_str().unicode_len();
    let ghost tv = spec_text(code@, start as int, end as int);
    let mut i: usize = 0;
    while i < n
        invariant
            0 <= i <= n == t@.len(),
            t@ == tv,
            forall|j: int| 0 <= j < i ==> tv[j] == '%',
        decreases n - i,
    {
        if t.as_str().get_char(i) != '%' {
            return false;
        }
        i = i + 1;
    }
    true
}

/// Resolve a version operand node.
fn resolve_version(source: &str, v: &SynNode, code: &[u8], tbl: &SymbolTable) -> (r: Option<
    WithLocation<Version>,
>)
    requires
        node_spans_within(v@, code@.len()),
        tbl.wf(),
    ensures
        match r {
            Some(wl) => spec_resolve_version(source@, v@, code@, tbl@) == Some(wl@),
            None => spec_resolve_version(source@, v@, code@, tbl@) is None,
        },
{
    proof {
        lemma_children_views(v.children@);
    }
    if str_eq(v.kind.as_str(), "string") {
        match extract_text(code, v.start, v.end) {
            Some(t) => Some(
                WithLocation {
                    value: Version::new(t.as_str()),
                    location: Location::new(source.to_owned(), Span::new(v.start, v.end)),
                },
            ),
            None => None,
        }
    } else if str_eq(v.kind.as_str(), "identifier") {
        lookup_version(v, code, tbl)
    } else {
        let n = v.children.len();
        let mut i: usize = n;
        while i > 0 && !str_eq(v.children[i - 1].kind.as_str(), "identifier")
            invariant
                0 <= i <= n == v.children@.len(),
                v@.children.len() == n,
                forall|j: int| 0 <= j < v.children@.len() ==> #[trigger] v@.children[j]
                    == v.children@[j]@,
                forall|j: int| i <= j < n ==> (#[trigger] v@.children[j]).kind != "identifier"@,
            decreases i,
        {
            i = i - 1;
        }
        proof {
            if i > 0 {
                lemma_last_ident_at(v@.children, i as int - 1);
            } else {
                lemma_last_ident_none(v@.children);
            }
        }
        if i == 0 {
            None
        } else {
            proof {
                assert(node_spans_within(v@.children[i - 1], code@.len()));
            }
            lookup_version(&v.children[i - 1], code, tbl)
        }
    }
}

proof fn lemma_last_ident_at(children: Seq<NodeView>, i: int)
    requires
        0 <= i < children.len(),
        children[i].kind == "identifier"@,
        forall|j: int| i < j < children.len() ==> (#[trigger] children[j]).kind != "identifier"@,
    ensures
        last_ident(children) == Some(i),
    decreases children.len(),
{
    if i < children.len() - 1 {
        assert forall|j: int|
            i < j < children.drop_last().len() implies (#[trigger] children.drop_last()[j]).kind
            != "identifier"@ by {
            assert(children.drop_last()[j] == children[j]);
        }
        lemma_last_ident_at(children.drop_last(), i);
    }
}

proof fn lemma_last_ident_none(children: Seq<NodeView>)
    requires
        forall|j: int| 0 <= j < children.len() ==> (#[trigger] children[j]).kind != "identifier"@,
    ensures
        last_ident(children) is None,
    decreases children.len(),
{
    if children.len() > 0 {
        assert forall|j: int|
            0 <= j < children.drop_last().len() implies (#[trigger] children.drop_last()[j]).kind
            != "identifier"@ by {
            assert(children.drop_last()[j] == children[j]);
        }
        lemma_last_ident_none(children.drop_last());
    }
}

/// Resolve an identifier node through the symbol table.
fn lookup_version(ident: &SynNode, code: &[u8], tbl: &SymbolTable) -> (r: Option<
    WithLocation<Version>,
>)
    requires
        node_spans_within(ident@, code@.len()),
        tbl.wf(),
    ensures
        match r {
            Some(wl) => spec_lookup_version(ident@, code@, tbl@) == Some(wl@),
            None => spec_lookup_version(ident@, code@, tbl@) is None,
        },
{
    let name = match extract_text(code, ident.start, ident.end) {
        Some(t) => t,
        None => {
            return None;
        },
    };
    match tbl.get(name.as_str()) {
        Some(val) => Some(
            WithLocation {
                value: Version::new(val.value.as_str()),
                location: val.location.clone(),
            },
        ),
        None => None,
    }
}

proof fn lemma_kind_literals()
    ensures
        "string"@ != "infix_expression"@,
        "identifier"@ != "infix_expression"@,
        "string"@ != "identifier"@,
{
    reveal_strlit("string");
    reveal_strlit("infix_expression");
    reveal_strlit("identifier");
    assert("string"@.len() == 6);
    assert("infix_expression"@.len() == 16);
    assert("identifier"@.len() == 10);
}

/// The record one node yields, if it is a dependency declaration.
fn match_dep(source: &str, node: &SynNode, code: &[u8], tbl: &SymbolTable) -> (r: Option<
    Dependency,
>)
    requires
        node_spans_within(node@, code@.len()),
        tbl.wf(),
    ensures
        match r {
            Some(d) => spec_match_dep(source@, node@, code@, tbl@) == Some(d@),
            None => spec_match_dep(source@, node@, code@, tbl@) is None,
        },
{
    proof {
        lemma_children_views(node.children@);
        lemma_kind_literals();
    }
    if !(str_eq(node.kind.as_str(), "infix_expression") && node.children.len() == 3) {
        return None;
    }
    let left = &node.children[0];
    proof {
        assert(node@.children[0] == left@);
        assert(node_spans_within(left@, code@.len()));
        lemma_children_views(left.children@);
    }
    if !(str_eq(left.kind.as_str(), "infix_expression") && left.children.len() == 3) {
        return None;
    }
    let ll = &left.children[0];
    proof {
        assert(left@.children[0] == ll@);
        assert(node_spans_within(ll@, code@.len()));
        lemma_children_views(ll.children@);
    }
    if str_eq(ll.kind.as_str(), "string") {
        // two-segment form
        if !(str_eq(left.children[1].kind.as_str(), "operator_identifier") && str_eq(
            left.children[2].kind.as_str(),
            "string",
        ) && str_eq(node.children[1].kind.as_str(), "operator_identifier")) {
            return None;
        }
        proof {
            assert(dep_shape_two(node@));
            assert(!dep_shape_three(node@));
        }
        build_dep(
            source,
            ll,
            &left.children[1],
            &left.children[2],
            &node.children[1],
            &node.children[2],
            code,
            tbl,
            Ghost(node@),
        )
    } else if str_eq(ll.kind.as_str(), "infix_expression") && ll.children.len() == 3 && str_eq(
        ll.children[0].kind.as_str(),
        "identifier",
    ) && str_eq(ll.children[1].kind.as_str(), "operator_identifier") && str_eq(
        ll.children[2].kind.as_str(),
        "string",
    ) {
        // three-segment form
        proof {
            assert(dep_shape_three(node@));
            assert(!dep_shape_two(node@));
        }
        build_dep(
            source,
            &ll.children[2],
            &left.children[1],
            &left.children[2],
            &node.children[1],
            &node.children[2],
            code,
            tbl,
            Ghost(node@),
        )
    } else {
        proof {
            assert(!dep_shape_two(node@));
            assert(!dep_shape_three(node@));
        }
        None
    }
}

/// Assemble a record from the five operand nodes of a declaration.
#[verifier::rlimit(30)]
fn build_dep(
    source: &str,
    group: &SynNode,
    percents: &SynNode,
    artifact: &SynNode,
    percent: &SynNode,
    version: &SynNode,
    code: &[u8],
    tbl: &SymbolTable,
    Ghost(whole): Ghost<NodeView>,
) -> (r: Option<Dependency>)
    requires
        node_spans_within(group@, code@.len()),
        node_spans_within(percents@, code@.len()),
        node_spans_within(artifact@, code@.len()),
        node_spans_within(percent@, code@.len()),
        node_spans_within(version@, code@.len()),
        tbl.wf(),
        spec_match_dep(source@, whole, code@, tbl@) == spec_build_dep(
            source@,
            group@,
            percents@,
            artifact@,
            percent@,
            version@,
            code@,
            tbl@,
        ),
    ensures
        match r {
            Some(d) => spec_match_dep(source@, whole, code@, tbl@) == Some(d@),
            None => spec_match_dep(source@, whole, code@, tbl@) is None,
        },
{
    if !text_all_percents(code, percents.start, percents.end) {
        return None;
    }
    if !text_all_percents(code, percent.start, percent.end) {
        return None;
    }
    let group_text = match extract_text(code, group.start, group.end) {
        Some(t) => t,
        None => {
            return None;
        },
    };
    let artifact_text = match extract_text(code, artifact.start, artifact.end) {
        Some(t) => t,
        None => {
            return None;
        },
    };
    match resolve_version(source, version, code, tbl) {
        Some(wl) => Some(
            Dependency {
                group: Group::new(group_text.as_str()),
                artifact: Artifact::new(artifact_text.as_str()),
                version: wl,
            },
        ),
        None => None,
    }
}

/// Collect every dependency record under one node, in tree order.
fn parse_deps_node(
    source: &str,
    node: &SynNode,
    code: &[u8],
    tbl: &SymbolTable,
    out: &mut Vec<Dependency>,
)
    requires
        node_spans_within(node@, code@.len()),
        tbl.wf(),
    ensures
        final(out).deep_view() == old(out).deep_view() + spec_deps(source@, node@, code@, tbl@),
    decreases *node,
{
    proof {
        lemma_children_views(node.children@);
    }
    match match_dep(source, node, code, tbl) {
        Some(d) => {
            out.push(d);
            proof {
                assert(out.deep_view() =~= old(out).deep_view() + seq![d@]);
            }
        },
        None => {
            proof {
                assert(out.deep_view() =~= old(out).deep_view() + Seq::<
                    DependencyView,
                >::empty());
            }
        },
    }
    let ghost base = out.deep_view();
    let ghost emitted = match spec_match_dep(source@, node@, code@, tbl@) {
        Some(d) => seq![d],
        None => Seq::<DependencyView>::empty(),
    };
    let n = node.children.len();
    let mut i: usize = 0;
    proof {
        assert(node@.children.take(0) =~= Seq::<NodeView>::empty());
        assert(base == old(out).deep_view() + emitted);
    }
    while i < n
        invariant
            0 <= i <= n == node.children@.len(),
            node@.children.len() == n,
            node_spans_within(node@, code@.len()),
            tbl.wf(),
            forall|j: int| 0 <= j < node.children@.len() ==> #[trigger] node@.children[j]
                == node.children@[j]@,
            out.deep_view() == base + spec_deps_seq(
                source@,
                node@.children.take(i as int),
                code@,
                tbl@,
            ),
        decreases n - i,
    {
        proof {
            assert(decreases_to!(*node => node.children));
            assert(decreases_to!(node.children => node.children@));
            assert(decreases_to!(node.children@ => node.children@[i as int]));
            assert(node@.children[i as int] == node.children@[i as int]@);
            assert(node_spans_within(node@.children[i as int], code@.len()));
        }
        parse_deps_node(source, &node.children[i], code, tbl, out);
        proof {
            assert(node@.children.take(i as int + 1).drop_last() =~= node@.children.take(
                i as int,
            ));
            assert(node@.children.take(i as int + 1).last() == node@.children[i as int]);
        }
        i = i + 1;
    }
    proof {
        assert(node@.children.take(n as int) =~= node@.children);
    }
}

// ---------------------------------------------------------------------
// The language-version assignment.
// ---------------------------------------------------------------------

pub open spec fn is_space(b: u8) -> bool {
    b == 32 || b == 9 || b == 10 || b == 13 || b == 11 || b == 12
}

pub open spec fn is_ident_start(b: u8) -> bool {
    (97 <= b <= 122) || (65 <= b <= 90) || b == 95
}

pub open spec fn is_ident_byte(b: u8) -> bool {
    is_ident_start(b) || (48 <= b <= 57)
}

/// The first index at or past `i` that does not hold whitespace.
pub open spec fn skip_spaces(code: Seq<u8>, i: int) -> int
    decreases code.len() - i,
{
    if 0 <= i < code.len() && is_space(code[i]) {
        skip_spaces(code, i + 1)
    } else {
        i
    }
}

/// The first index at or past `i` that does not hold an identifier byte.
pub open spec fn ident_end(code: Seq<u8>, i: int) -> int
    decreases code.len() - i,
{
    if 0 <= i < code.len() && is_ident_byte(code[i]) {
        ident_end(code, i + 1)
    } else {
        i
    }
}

/// The first index at or past `i` holding byte `b`, if any.
pub open spec fn find_byte(code: Seq<u8>, i: int, b: u8) -> Option<int>
    decreases code.len() - i,
{
    if i < 0 || i >= code.len() {
        None
    } else if code[i] == b {
        Some(i)
    } else {
        find_byte(code, i + 1, b)
    }
}

proof fn lemma_ident_end_bounds(code: Seq<u8>, i: int)
    requires
        0 <= i <= code.len(),
    ensures
        i <= ident_end(code, i) <= code.len(),
    decreases code.len() - i,
{
    if i < code.len() && is_ident_byte(code[i]) {
        lemma_ident_end_bounds(code, i + 1);
    }
}

/// The end of a dotted identifier path whose first segment ends at `e`:
/// each further `.` followed by an identifier extends the path by one
/// more segment.
pub open spec fn path_continue(code: Seq<u8>, e: int) -> int
    decreases code.len() - e,
    via path_continue_decreases
{
    if 0 <= e && e + 1 < code.len() && code[e] == 46 && is_ident_start(code[e + 1]) {
        path_continue(code, ident_end(code, e + 2))
    } else {
        e
    }
}

#[via_fn]
proof fn path_continue_decreases(code: Seq<u8>, e: int) {
    if 0 <= e && e + 1 < code.len() && code[e] == 46 && is_ident_start(code[e + 1]) {
        lemma_ident_end_bounds(code, e + 2);
    }
}

/// The position right after the last `.` in `[s, e)`, if any: where a
/// dotted reference's final segment begins.
pub open spec fn last_dot_before(code: Seq<u8>, s: int, e: int) -> Option<int>
    decreases e - s,
{
    if e <= s {
        None
    } else if code[e - 1] == 46 {
        Some(e - 1)
    } else {
        last_dot_before(code, s, e - 1)
    }
}

pub open spec fn sv_marker() -> Seq<u8> {
    vstd::utf8::encode_utf8("scalaVersion"@)
}

/// Whether a language-version assignment starts at `i`: the marker word,
/// optional whitespace, `:=`, optional whitespace, then either a quoted
/// non-empty literal, or an identifier possibly extended by dotted
/// member-access segments.  The returned range is the version operand,
/// quotes included.
pub open spec fn sv_match_at(code: Seq<u8>, i: int) -> Option<(int, int)> {
    if 0 <= i && i + sv_marker().len() <= code.len() && code.subrange(
        i,
        i + sv_marker().len(),
    ) == sv_marker() {
        let j = skip_spaces(code, i + sv_marker().len());
        if j + 2 <= code.len() && code[j] == 58 && code[j + 1] == 61 {
            let k = skip_spaces(code, j + 2);
            if k < code.len() && code[k] == 34 {
                match find_byte(code, k + 1, 34) {
                    Some(q) => if q > k + 1 {
                        Some((k, q + 1))
                    } else {
                        None
                    },
                    None => None,
                }
            } else if k < code.len() && is_ident_start(code[k]) {
                Some((k, path_continue(code, ident_end(code, k + 1))))
            } else {
                None
            }
        } else {
            None
        }
    } else {
        None
    }
}

/// The leftmost assignment, scanning every starting position in turn.
pub open spec fn sv_first(code: Seq<u8>, i: int) -> Option<(int, int)>
    decreases code.len() - i,
{
    if i < 0 || i >= code.len() {
        None
    } else {
        match sv_match_at(code, i) {
            Some(c) => Some(c),
            None => sv_first(code, i + 1),
        }
    }
}

/// What the version operand of the assignment resolves to: a quoted
/// literal in place (the recorded span keeps the quotes), an identifier
/// through the symbol table, a dotted reference through its final
/// segment, or nothing.
pub open spec fn spec_find_scala_version(
    source: Seq<char>,
    code: Seq<u8>,
    tbl: Map<Seq<char>, WithLocationView<Seq<char>>>,
) -> Option<WithLocationView<VersionView>> {
    match sv_first(code, 0) {
        None => None,
        Some(c) => {
            let s = c.0;
            let e = c.1;
            if code[s] == 34 {
                if valid_utf8(code.subrange(s + 1, e - 1)) {
                    Some(
                        WithLocationView {
                            value: parse_version(decode_utf8(code.subrange(s + 1, e - 1))),
                            location: LocationView {
                                path: source,
                                span: Span { start: s as usize, end: e as usize },
                            },
                        },
                    )
                } else {
                    None
                }
            } else {
                let ns = match last_dot_before(code, s, e) {
                    None => s,
                    Some(d) => d + 1,
                };
                if valid_utf8(code.subrange(ns, e)) && tbl.dom().contains(
                    decode_utf8(code.subrange(ns, e)),
                ) {
                    Some(
                        WithLocationView {
                            value: parse_version(tbl[decode_utf8(code.subrange(ns, e))].value),
                            location: tbl[decode_utf8(code.subrange(ns, e))].location,
                        },
                    )
                } else {
                    None
                }
            }
        },
    }
}

fn space_byte(b: u8) -> (r: bool)
    ensures
        r == is_space(b),
{
    b == 32 || b == 9 || b == 10 || b == 13 || b == 11 || b == 12
}

fn ident_start_byte(b: u8) -> (r: bool)
    ensures
        r == is_ident_start(b),
{
    (97 <= b && b <= 122) || (65 <= b && b <= 90) || b == 95
}

fn ident_byte(b: u8) -> (r: bool)
    ensures
        r == is_ident_byte(b),
{
    (97 <= b && b <= 122) || (65 <= b && b <= 90) || b == 95 || (48 <= b && b <= 57)
}

/// One scan step of the assignment pattern.
#[verifier::loop_isolation(false)]
fn sv_try_match(code: &[u8], i: usize) -> (r: Option<(usize, usize)>)
    ensures
        match r {
            Some(c) => sv_match_at(code@, i as int) == Some((c.0 as int, c.1 as int)) && i <= c.0
                < c.1 <= code@.len() && (code@[c.0 as int] == 34 ==> c.0 + 2 <= c.1),
            None => sv_match_at(code@, i as int) is None,
        },
{
    let marker = "scalaVersion";
    proof {
        reveal_strlit("scalaVersion");
        assert(marker@.len() == 12);
        assert(vstd::utf8::is_ascii_chars(marker@));
        vstd::string::is_ascii_spec_bytes(marker);
        assert(marker.spec_bytes().len() == 12);
    }
    let mbytes = marker.as_bytes();
    if i >= code.len() || code.len() - i < 12 {
        return None;
    }
    if !bytes_eq(vstd::slice::slice_subrange(code, i, i + 12), mbytes) {
        return None;
    }
    let mut j = i + 12;
    while j < code.len() && space_byte(code[j])
        invariant
            i + 12 <= j <= code@.len(),
            skip_spaces(code@, i + 12) == skip_spaces(code@, j as int),
        decreases code@.len() - j,
    {
        j = j + 1;
    }
    proof {
        assert(skip_spaces(code@, i + 12) == j as int);
    }
    if j >= code.len() || code.len() - j < 2 || code[j] != 58 || code[j + 1] != 61 {
        return None;
    }
    let mut k = j + 2;
    while k < code.len() && space_byte(code[k])
        invariant
            j + 2 <= k <= code@.len(),
            skip_spaces(code@, j as int + 2) == skip_spaces(code@, k as int),
        decreases code@.len() - k,
    {
        k = k + 1;
    }
    proof {
        assert(skip_spaces(code@, j as int + 2) == k as int);
    }
    if k >= code.len() {
        return None;
    }
    let b0 = code[k];
    if b0 == 34 {
        let mut q = k + 1;
        while q < code.len() && code[q] != 34
            invariant
                k + 1 <= q <= code@.len(),
                find_byte(code@, k as int + 1, 34) == find_byte(code@, q as int, 34),
            decreases code@.len() - q,
        {
            q = q + 1;
        }
        if q >= code.len() {
            proof {
                assert(find_byte(code@, q as int, 34) is None);
            }
            return None;
        }
        proof {
            assert(find_byte(code@, k as int + 1, 34) == Some(q as int));
        }
        if q == k + 1 {
            return None;
        }
        Some((k, q + 1))
    } else if ident_start_byte(b0) {
        let mut e = k + 1;
        while e < code.len() && ident_byte(code[e])
            invariant
                k + 1 <= e <= code@.len(),
                ident_end(code@, k as int + 1) == ident_end(code@, e as int),
            decreases code@.len() - e,
        {
            e = e + 1;
        }
        proof {
            assert(ident_end(code@, k as int + 1) == e as int);
        }
        // dotted member-access segments extend the operand
        while e < code.len() && code.len() - e >= 2 && code[e] == 46 && ident_start_byte(
            code[e + 1],
        )
            invariant
                k + 1 <= e <= code@.len(),
                path_continue(code@, ident_end(code@, k as int + 1)) == path_continue(
                    code@,
                    e as int,
                ),
            decreases code@.len() - e,
        {
            let mut e2 = e + 2;
            while e2 < code.len() && ident_byte(code[e2])
                invariant
                    e + 2 <= e2 <= code@.len(),
                    ident_end(code@, e as int + 2) == ident_end(code@, e2 as int),
                decreases code@.len() - e2,
            {
                e2 = e2 + 1;
            }
            proof {
                assert(ident_end(code@, e as int + 2) == e2 as int);
                assert(path_continue(code@, e as int) == path_continue(code@, e2 as int));
            }
            e = e2;
        }
        proof {
            assert(path_continue(code@, e as int) == e as int);
        }
        Some((k, e))
    } else {
        None
    }
}

proof fn lemma_sv_first_at(code: Seq<u8>, i: int)
    requires
        0 <= i < code.len(),
        sv_match_at(code, i) is Some,
        forall|j: int| 0 <= j < i ==> #[trigger] sv_match_at(code, j) is None,
    ensures
        sv_first(code, 0) == sv_match_at(code, i),
    decreases i,
{
    if i > 0 {
        lemma_sv_first_suffix(code, 0, i);
    }
}

proof fn lemma_sv_first_suffix(code: Seq<u8>, from: int, i: int)
    requires
        0 <= from <= i < code.len(),
        sv_match_at(code, i) is Some,
        forall|j: int| from <= j < i ==> #[trigger] sv_match_at(code, j) is None,
    ensures
        sv_first(code, from) == sv_match_at(code, i),
    decreases i - from,
{
    if from < i {
        lemma_sv_first_suffix(code, from + 1, i);
    }
}

proof fn lemma_sv_first_none(code: Seq<u8>, from: int)
    requires
        0 <= from,
        forall|j: int| from <= j < code.len() ==> #[trigger] sv_match_at(code, j) is None,
    ensures
        sv_first(code, from) is None,
    decreases code.len() - from,
{
    if from < code.len() {
        lemma_sv_first_none(code, from + 1);
    }
}

/// Scan every starting position for the assignment pattern.
fn sv_scan(bytes: &[u8]) -> (r: Option<(usize, usize)>)
    ensures
        match r {
            Some(c) => sv_first(bytes@, 0) == Some((c.0 as int, c.1 as int)) && c.0 < c.1
                <= bytes@.len() && (bytes@[c.0 as int] == 34 ==> c.0 + 2 <= c.1),
            None => sv_first(bytes@, 0) is None,
        },
{
    let n = bytes.len();
    let mut i: usize = 0;
    while i < n
        invariant
            0 <= i <= n == bytes@.len(),
            forall|j: int| 0 <= j < i ==> #[trigger] sv_match_at(bytes@, j) is None,
        decreases n - i,
    {
        match sv_try_match(bytes, i) {
            Some(c) => {
                proof {
                    lemma_sv_first_at(bytes@, i as int);
                }
                return Some(c);
            },
            None => {},
        }
        i = i + 1;
    }
    proof {
        lemma_sv_first_none(bytes@, 0);
    }
    None
}

/// Find the language-version assignment, as defined by the `name :=
/// version` pattern, and resolve its operand.
pub fn find_scala_version(source: &str, code: &str, val_defs: &SymbolTable) -> (r: Option<
    WithLocation<Version>,
>)
    requires
        val_defs.wf(),
    ensures
        match r {
            Some(wl) => spec_find_scala_version(source@, code.spec_bytes(), val_defs@) == Some(
                wl@,
            ),
            None => spec_find_scala_version(source@, code.spec_bytes(), val_defs@) is None,
        },
{
    let bytes = code.as_bytes();
    let (s, e) = match sv_scan(bytes) {
        Some(c) => c,
        None => {
            return None;
        },
    };
    if bytes[s] == 34 {
        let content = vstd::slice::slice_subrange(bytes, s + 1, e - 1);
        match utf8_str(content) {
            Some(st) => {
                proof {
                    encode_utf8_decode_utf8(st@);
                }
                Some(
                    WithLocation {
                        value: Version::new(st),
                        location: Location::new(source.to_owned(), Span::new(s, e)),
                    },
                )
            },
            None => None,
        }
    } else {
        // a dotted reference resolves by its final segment
        let mut q = e;
        while q > s && bytes[q - 1] != 46
            invariant
                s <= q <= e <= bytes@.len(),
                forall|j: int| q <= j < e ==> bytes@[j] != 46,
            decreases q,
        {
            q = q - 1;
        }
        let ns = if q == s {
            proof {
                lemma_last_dot_none(bytes@, s as int, e as int);
            }
            s
        } else {
            proof {
                lemma_last_dot_at(bytes@, s as int, e as int, q as int - 1);
            }
            q
        };
        let name = vstd::slice::slice_subrange(bytes, ns, e);
        match utf8_str(name) {
            Some(st) => {
                proof {
                    encode_utf8_decode_utf8(st@);
                }
                match val_defs.get(st) {
                    Some(val) => Some(
                        WithLocation {
                            value: Version::new(val.value.as_str()),
                            location: val.location.clone(),
                        },
                    ),
                    None => None,
                }
            },
            None => None,
        }
    }
}

proof fn lemma_last_dot_none(code: Seq<u8>, s: int, e: int)
    requires
        0 <= s <= e <= code.len(),
        forall|j: int| s <= j < e ==> code[j] != 46,
    ensures
        last_dot_before(code, s, e) is None,
    decreases e - s,
{
    if s < e {
        lemma_last_dot_none(code, s, e - 1);
    }
}

proof fn lemma_last_dot_at(code: Seq<u8>, s: int, e: int, d: int)
    requires
        0 <= s <= d < e <= code.len(),
        code[d] == 46,
        forall|j: int| d < j < e ==> code[j] != 46,
    ensures
        last_dot_before(code, s, e) == Some(d),
    decreases e - d,
{
    if d < e - 1 {
        lemma_last_dot_at(code, s, e - 1, d);
    }
}

/// Every constant definition under one node, as a fresh table.
pub fn extract_vals(source: &str, node: &SynNode, code: &str) -> (r: SymbolTable)
    requires
        node_spans_within(node@, code.spec_bytes().len()),
    ensures
        r.wf(),
        r@ == spec_parse_vals(
            source@,
            node@,
            code.spec_bytes(),
            Map::<Seq<char>, WithLocationView<Seq<char>>>::empty(),
        ),
{
    let mut vals = SymbolTable::new();
    parse_vals(source, node, code.as_bytes(), &mut vals);
    vals
}

/// Every dependency declaration under one node, resolved against a
/// symbol table, in tree order.
pub fn parse_dependencies(
    source: &str,
    code: &str,
    node: &SynNode,
    val_defs: &SymbolTable,
) -> (r: Vec<Dependency>)
    requires
        node_spans_within(node@, code.spec_bytes().len()),
        val_defs.wf(),
    ensures
        r.deep_view() == spec_deps(source@, node@, code.spec_bytes(), val_defs@),
{
    let mut out: Vec<Dependency> = Vec::new();
    parse_deps_node(source, node, code.as_bytes(), val_defs, &mut out);
    proof {
        assert(out.deep_view() =~= spec_deps(source@, node@, code.spec_bytes(), val_defs@));
    }
    out
}

// ---------------------------------------------------------------------
// The per-project extraction state.
// ---------------------------------------------------------------------

/// Extraction state over a set of files: the constant definitions seen so
/// far, and the records read so far.
#[derive(Debug)]
pub struct DependencyParser {
    pub val_defs: SymbolTable,
    pub dependencies: Vec<Dependency>,
}

impl DependencyParser {
    pub fn new() -> (r: DependencyParser)
        ensures
            r.val_defs@ == Map::<Seq<char>, WithLocationView<Seq<char>>>::empty(),
            r.val_defs.wf(),
            r.dependencies@.len() == 0,
    {
        DependencyParser { val_defs: SymbolTable::new(), dependencies: Vec::new() }
    }

    /// Record every constant definition of one file into the shared table.
    pub fn parse_val_defs(&mut self, source: &str, code: &str)
        requires
            old(self).val_defs.wf(),
        ensures
            final(self).val_defs.wf(),
            final(self).val_defs@ == spec_parse_vals(
                source@,
                scala_parse(code.spec_bytes()),
                code.spec_bytes(),
                old(self).val_defs@,
            ),
            final(self).dependencies == old(self).dependencies,
    {
        let tree = parse_tree(code);
        parse_vals(source, &tree, code.as_bytes(), &mut self.val_defs);
    }

    /// Read every dependency declaration of one file, resolving constant
    /// references against the table built so far.
    pub fn parse_dependencies(&mut self, source: &str, code: &str)
        requires
            old(self).val_defs.wf(),
        ensures
            final(self).val_defs == old(self).val_defs,
            final(self).dependencies.deep_view() == old(self).dependencies.deep_view()
                + spec_deps(
                source@,
                scala_parse(code.spec_bytes()),
                code.spec_bytes(),
                old(self).val_defs@,
            ),
    {
        let tree = parse_tree(code);
        parse_deps_node(source, &tree, code.as_bytes(), &self.val_defs, &mut self.dependencies);
    }
}

// ---------------------------------------------------------------------
// The synthesized language-library record.
// ---------------------------------------------------------------------

/// Which library artifact a language version selects.
pub open spec fn spec_scala_artifact(v: VersionView) -> Seq<char> {
    if v matches VersionView::SemVer { major: 3, .. } {
        "scala3-library_3"@
    } else {
        "scala-library"@
    }
}

/// The record the root build file's language-version assignment
/// synthesizes, if the assignment is there and resolves: a fixed
/// organization, the artifact picked by the parsed major version, and the
/// version exactly as resolved.
pub open spec fn spec_scala_version_dep(source: Seq<char>, code: Seq<u8>) -> Option<
    DependencyView,
> {
    let tbl = spec_parse_vals(
        source,
        scala_parse(code),
        code,
        Map::<Seq<char>, WithLocationView<Seq<char>>>::empty(),
    );
    match spec_find_scala_version(source, code, tbl) {
        None => None,
        Some(wl) => Some(
            DependencyView {
                group: "org.scala-lang"@,
                artifact: spec_scala_artifact(wl.value),
                version: wl,
            },
        ),
    }
}

/// Read the language version out of the root build file and synthesize
/// its library dependency record.
pub fn get_scala_version_from_build_sbt(source: &str, code: &str) -> (r: Option<Dependency>)
    ensures
        match r {
            Some(d) => spec_scala_version_dep(source@, code.spec_bytes()) == Some(d@),
            None => spec_scala_version_dep(source@, code.spec_bytes()) is None,
        },
{
    let tree = parse_tree(code);
    let vals = extract_vals(source, &tree, code);
    let scala_version = match find_scala_version(source, code, &vals) {
        Some(wl) => wl,
        None => {
            return None;
        },
    };
    let is_three = match scala_version.value.major() {
        Some(3) => true,
        _ => false,
    };
    let artifact_name = if is_three {
        "scala3-library_3"
    } else {
        "scala-library"
    };
    Some(
        Dependency {
            group: Group::new("org.scala-lang"),
            artifact: Artifact::new(artifact_name),
            version: scala_version,
        },
    )
}

// ---------------------------------------------------------------------
// An unresolved constant reference drops its declaration.
// ---------------------------------------------------------------------

/// A declaration whose version operand is an identifier with no matching
/// definition in the table yields no record at all; it is dropped, not
/// an error.
pub proof fn lemma_unresolved_reference_dropped(
    source: Seq<char>,
    n: NodeView,
    code: Seq<u8>,
    tbl: Map<Seq<char>, WithLocationView<Seq<char>>>,
)
    requires
        n.children.len() == 3,
        n.children[2].kind == "identifier"@,
        !tbl.dom().contains(
            spec_text(code, n.children[2].start as int, n.children[2].end as int),
        ),
    ensures
        spec_match_dep(source, n, code, tbl) is None,
{
    lemma_kind_literals();
}

} // verus!
