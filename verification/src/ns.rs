//! Namespaces: the bindings of prefixes that are in scope, and what a name
//! resolves to.

use vstd::prelude::*;
use vstd::string::StringSliceAdditionalSpecFns;
use crate::attributes::{attr_at, Attributes, AttrSpec, AttrStep, lemma_attr_at_bounds};
use crate::document::lemma_step_opened;
use crate::errors::{Error, ErrorSpec};
use crate::events::{Event, EventSpec};
use crate::name::{local_name, local_name_spec, prefix, prefix_spec};
use crate::reader::{Config, end_name, initial_state, Reader, ReaderState, step};
use crate::utils::{slice_eq, subslice, to_vec};

verus! {

/// The namespace to which the prefix `xml` is always bound.
pub open spec fn xml_namespace() -> Seq<u8> {
    "http://www.w3.org/XML/1998/namespace".spec_bytes()
}

/// The namespace to which the prefix `xmlns` is always bound.
pub open spec fn xmlns_namespace() -> Seq<u8> {
    "http://www.w3.org/2000/xmlns/".spec_bytes()
}

/// A binding of a prefix to a namespace, as a mathematical value. The empty
/// prefix stands for the default namespace. `level` is the depth of the
/// element that declared the binding.
pub struct BindingSpec {
    pub prefix: Seq<u8>,
    pub uri: Seq<u8>,
    pub level: nat,
}

/// The bindings in scope and the depth of the innermost open element, as a
/// mathematical value.
pub struct ScopeSpec {
    pub bindings: Seq<BindingSpec>,
    pub level: nat,
}

/// What a name resolves to, as a mathematical value.
pub enum ResolveSpec {
    /// The name has no prefix and no default namespace applies.
    Unbound,
    /// The namespace to which the name's prefix, or the default, is bound.
    Bound(Seq<u8>),
    /// The name's prefix is bound to nothing.
    Unknown(Seq<u8>),
}

/// The binding that an attribute declares, if it declares one: `xmlns`
/// binds the default namespace, and `xmlns:p` binds the prefix `p`.
pub open spec fn declaration(attr: AttrSpec, level: nat) -> Option<BindingSpec> {
    if attr.key == "xmlns".spec_bytes() {
        Some(BindingSpec { prefix: Seq::empty(), uri: attr.value, level })
    } else if prefix_spec(attr.key) == Some("xmlns".spec_bytes()) {
        Some(BindingSpec { prefix: local_name_spec(attr.key), uri: attr.value, level })
    } else {
        None
    }
}

/// The bindings that the attributes from `pos` on declare, in their order.
/// What follows the first thing that is no attribute declares nothing.
pub open spec fn declared(raw: Seq<u8>, pos: int, level: nat) -> Seq<BindingSpec>
    decreases raw.len() - pos,
{
    match attr_at(raw, pos) {
        AttrStep::Attr { attr, key_at, next } => if !(pos < next <= raw.len()) {
            Seq::empty()
        } else {
            (match declaration(attr, level) {
                Some(b) => seq![b],
                None => Seq::empty(),
            }) + declared(raw, next, level)
        },
        _ => Seq::empty(),
    }
}

/// The namespace to which the innermost of the first `n` bindings binds a
/// prefix, if one of them binds it.
pub open spec fn lookup(bindings: Seq<BindingSpec>, prefix: Seq<u8>, n: int) -> Option<Seq<u8>>
    decreases n,
{
    if n <= 0 || n > bindings.len() {
        None
    } else if bindings[n - 1].prefix == prefix {
        Some(bindings[n - 1].uri)
    } else {
        lookup(bindings, prefix, n - 1)
    }
}

/// What a name resolves to with the given bindings in scope.
///
/// The prefixes `xml` and `xmlns` are bound once and for all. Any other
/// prefix resolves to the namespace of its innermost binding; bound to
/// nothing or to the empty namespace, it is unknown. A name without a
/// prefix takes the default namespace where `use_default` is set, as it is
/// for elements and is not for attributes; the empty default namespace
/// leaves it unbound.
pub open spec fn resolve_spec(bindings: Seq<BindingSpec>, name: Seq<u8>, use_default: bool) -> ResolveSpec {
    match prefix_spec(name) {
        Some(p) => if p == "xml".spec_bytes() {
            ResolveSpec::Bound(xml_namespace())
        } else if p == "xmlns".spec_bytes() {
            ResolveSpec::Bound(xmlns_namespace())
        } else {
            match lookup(bindings, p, bindings.len() as int) {
                Some(uri) => if uri.len() > 0 {
                    ResolveSpec::Bound(uri)
                } else {
                    ResolveSpec::Unknown(p)
                },
                None => ResolveSpec::Unknown(p),
            }
        },
        None => if use_default {
            match lookup(bindings, Seq::empty(), bindings.len() as int) {
                Some(uri) => if uri.len() > 0 {
                    ResolveSpec::Bound(uri)
                } else {
                    ResolveSpec::Unbound
                },
                None => ResolveSpec::Unbound,
            }
        } else {
            ResolveSpec::Unbound
        },
    }
}

/// The bindings without those at the end that were declared at `level` or
/// deeper.
pub open spec fn trimmed(bindings: Seq<BindingSpec>, level: nat) -> Seq<BindingSpec>
    decreases bindings.len(),
{
    if bindings.len() > 0 && bindings.last().level >= level {
        trimmed(bindings.drop_last(), level)
    } else {
        bindings
    }
}

impl ScopeSpec {
    /// A scope is sound when its bindings stand in the order of their
    /// levels and none was declared deeper than the innermost open element.
    pub open spec fn ok(self) -> bool {
        &&& forall|i: int|
            0 <= i < self.bindings.len() ==> (#[trigger] self.bindings[i]).level <= self.level
        &&& forall|i: int, j: int|
            0 <= i <= j < self.bindings.len() ==> (#[trigger] self.bindings[i]).level <= (
            #[trigger] self.bindings[j]).level
    }

    /// The scope inside an element with the given attributes: one level
    /// deeper, with the bindings that the attributes declare.
    pub open spec fn pushed(self, raw: Seq<u8>) -> ScopeSpec {
        ScopeSpec {
            bindings: self.bindings + declared(raw, 0, self.level + 1),
            level: self.level + 1,
        }
    }

    /// The scope outside the innermost open element: one level up, without
    /// the bindings that the element declared. At the top it stays.
    pub open spec fn popped(self) -> ScopeSpec {
        if self.level == 0 {
            self
        } else {
            ScopeSpec {
                bindings: trimmed(self.bindings, self.level),
                level: (self.level - 1) as nat,
            }
        }
    }

    /// The scope after an event: an opening tag enters its element, a
    /// closing tag leaves the innermost, and everything else leaves the scope
    /// as it is.
    pub open spec fn after(self, ev: EventSpec) -> ScopeSpec {
        match ev {
            EventSpec::Start(t) => self.pushed(t.attrs),
            EventSpec::End(_) => self.popped(),
            _ => self,
        }
    }
}

/// Every binding that attributes declare bears the level that it was
/// declared at.
pub proof fn lemma_declared_level(raw: Seq<u8>, pos: int, level: nat)
    requires
        0 <= pos <= raw.len(),
    ensures
        forall|i: int|
            0 <= i < declared(raw, pos, level).len() ==> (#[trigger] declared(
                raw,
                pos,
                level,
            )[i]).level == level,
    decreases raw.len() - pos,
{
    lemma_attr_at_bounds(raw, pos);
    match attr_at(raw, pos) {
        AttrStep::Attr { attr, key_at, next } => {
            lemma_declared_level(raw, next, level);
            let head = match declaration(attr, level) {
                Some(b) => seq![b],
                None => Seq::empty(),
            };
            let rest = declared(raw, next, level);
            assert forall|i: int| 0 <= i < (head + rest).len() implies (#[trigger] (head
                + rest)[i]).level == level by {
                if i < head.len() {
                    assert((head + rest)[i] == head[i]);
                } else {
                    assert((head + rest)[i] == rest[i - head.len()]);
                }
            }
        },
        _ => {},
    }
}

/// Of bindings in the order of their levels, trimming keeps those at the
/// start that were declared above `level`, and nothing else.
pub proof fn lemma_trimmed(bindings: Seq<BindingSpec>, level: nat)
    requires
        forall|i: int, j: int|
            0 <= i <= j < bindings.len() ==> (#[trigger] bindings[i]).level <= (
            #[trigger] bindings[j]).level,
    ensures
        trimmed(bindings, level).len() <= bindings.len(),
        trimmed(bindings, level) == bindings.take(trimmed(bindings, level).len() as int),
        forall|i: int|
            0 <= i < trimmed(bindings, level).len() ==> (#[trigger] bindings[i]).level < level,
        forall|i: int|
            trimmed(bindings, level).len() <= i < bindings.len() ==> (
            #[trigger] bindings[i]).level >= level,
    decreases bindings.len(),
{
    if bindings.len() > 0 && bindings.last().level >= level {
        let shorter = bindings.drop_last();
        assert forall|i: int, j: int| 0 <= i <= j < shorter.len() implies (
        #[trigger] shorter[i]).level <= (#[trigger] shorter[j]).level by {
            assert(shorter[i] == bindings[i]);
            assert(shorter[j] == bindings[j]);
        }
        lemma_trimmed(shorter, level);
        let k = trimmed(shorter, level).len() as int;
        assert(shorter.take(k) =~= bindings.take(k));
        assert forall|i: int| 0 <= i < k implies (#[trigger] bindings[i]).level < level by {
            assert(shorter[i] == bindings[i]);
        }
        assert forall|i: int| k <= i < bindings.len() implies (#[trigger] bindings[i]).level
            >= level by {
            if i < shorter.len() {
                assert(shorter[i] == bindings[i]);
            }
        }
    } else {
        assert(bindings.take(bindings.len() as int) =~= bindings);
        if bindings.len() > 0 {
            assert forall|i: int| 0 <= i < bindings.len() implies (#[trigger] bindings[i]).level
                < level by {
                assert(bindings[i].level <= bindings[bindings.len() - 1].level);
            }
        }
    }
}

/// Entering an element leaves a sound scope sound.
pub proof fn lemma_pushed_ok(scope: ScopeSpec, raw: Seq<u8>)
    requires
        scope.ok(),
    ensures
        scope.pushed(raw).ok(),
{
    let added = declared(raw, 0, scope.level + 1);
    let all = scope.bindings + added;
    lemma_declared_level(raw, 0, scope.level + 1);
    assert forall|i: int| 0 <= i < all.len() implies (#[trigger] all[i]).level <= scope.level
        + 1 by {
        if i < scope.bindings.len() {
            assert(all[i] == scope.bindings[i]);
        } else {
            assert(all[i] == added[i - scope.bindings.len()]);
        }
    }
    assert forall|i: int, j: int| 0 <= i <= j < all.len() implies (#[trigger] all[i]).level <= (
    #[trigger] all[j]).level by {
        if j < scope.bindings.len() {
            assert(all[i] == scope.bindings[i]);
            assert(all[j] == scope.bindings[j]);
        } else {
            assert(all[j] == added[j - scope.bindings.len()]);
            if i < scope.bindings.len() {
                assert(all[i] == scope.bindings[i]);
            } else {
                assert(all[i] == added[i - scope.bindings.len()]);
            }
        }
    }
}

/// Leaving an element leaves a sound scope sound.
pub proof fn lemma_popped_ok(scope: ScopeSpec)
    requires
        scope.ok(),
    ensures
        scope.popped().ok(),
{
    if scope.level > 0 {
        lemma_trimmed(scope.bindings, scope.level);
        let kept = trimmed(scope.bindings, scope.level);
        assert forall|i: int| 0 <= i < kept.len() implies (#[trigger] kept[i]).level
            <= scope.level - 1 by {
            assert(kept[i] == scope.bindings[i]);
        }
        assert forall|i: int, j: int| 0 <= i <= j < kept.len() implies (#[trigger] kept[i]).level
            <= (#[trigger] kept[j]).level by {
            assert(kept[i] == scope.bindings[i]);
            assert(kept[j] == scope.bindings[j]);
        }
    }
}

/// Leaving an element restores the scope in which it was entered: a sound
/// scope, pushed and then popped, is the scope itself.
pub proof fn lemma_pop_undoes_push(scope: ScopeSpec, raw: Seq<u8>)
    requires
        scope.ok(),
    ensures
        scope.pushed(raw).popped() == scope,
{
    let added = declared(raw, 0, scope.level + 1);
    let all = scope.bindings + added;
    lemma_declared_level(raw, 0, scope.level + 1);
    lemma_pushed_ok(scope, raw);
    lemma_trimmed(all, scope.level + 1);
    let k = trimmed(all, scope.level + 1).len() as int;
    if k < scope.bindings.len() {
        assert(all[k] == scope.bindings[k]);
        assert(scope.bindings[k].level <= scope.level);
    }
    if k > scope.bindings.len() {
        assert(all[k - 1] == added[k - 1 - scope.bindings.len()]);
    }
    assert(all.take(k) =~= scope.bindings);
}

/// A binding of a prefix to a namespace. Both borrow from the document.
#[derive(Debug, Clone, Copy, PartialEq, Eq)]
pub struct Binding<'a> {
    /// The prefix; empty for the default namespace.
    pub prefix: &'a [u8],
    /// The namespace.
    pub uri: &'a [u8],
    /// The depth of the element that declared the binding.
    pub level: usize,
}

impl<'a> View for Binding<'a> {
    type V = BindingSpec;

    open spec fn view(&self) -> BindingSpec {
        BindingSpec { prefix: self.prefix@, uri: self.uri@, level: self.level as nat }
    }
}

/// The values of a list of bindings.
pub open spec fn bindings_view(bindings: Seq<Binding>) -> Seq<BindingSpec> {
    Seq::new(bindings.len(), |i: int| bindings[i]@)
}

/// What a name resolves to.
#[derive(Debug, Clone, PartialEq, Eq)]
pub enum ResolveResult<'a> {
    /// The name has no prefix and no default namespace applies.
    Unbound,
    /// The namespace to which the name's prefix, or the default, is bound.
    Bound(&'a [u8]),
    /// The name's prefix is bound to nothing.
    Unknown(Vec<u8>),
}

impl<'a> View for ResolveResult<'a> {
    type V = ResolveSpec;

    open spec fn view(&self) -> ResolveSpec {
        match self {
            ResolveResult::Unbound => ResolveSpec::Unbound,
            ResolveResult::Bound(uri) => ResolveSpec::Bound(uri@),
            ResolveResult::Unknown(p) => ResolveSpec::Unknown(p@),
        }
    }
}

/// The bindings of prefixes to namespaces that are in scope.
#[derive(Debug, Clone)]
pub struct NamespaceResolver<'a> {
    bindings: Vec<Binding<'a>>,
    level: usize,
}

impl<'a> NamespaceResolver<'a> {
    /// The scope, as a mathematical value.
    pub closed spec fn scope(&self) -> ScopeSpec {
        ScopeSpec { bindings: bindings_view(self.bindings@), level: self.level as nat }
    }

    /// The resolver is well formed: its scope is sound.
    pub open spec fn wf(&self) -> bool {
        self.scope().ok()
    }

    /// A resolver at the top, with nothing bound.
    pub fn new() -> (r: NamespaceResolver<'a>)
        ensures
            r.wf(),
            r.scope() == (ScopeSpec { bindings: Seq::empty(), level: 0 }),
    {
        let r = NamespaceResolver { bindings: Vec::new(), level: 0 };
        assert(bindings_view(r.bindings@) =~= Seq::<BindingSpec>::empty());
        r
    }

    /// The depth of the innermost open element.
    pub fn level(&self) -> (r: usize)
        ensures
            r == self.scope().level,
    {
        self.level
    }

    /// Enters an element: the bindings that its attributes declare come
    /// into scope.
    pub fn push(&mut self, raw: &'a [u8])
        requires
            old(self).wf(),
            old(self).scope().level < usize::MAX,
        ensures
            final(self).wf(),
            final(self).scope() == old(self).scope().pushed(raw@),
    {
        let level = self.level + 1;
        self.enter(raw, level);
    }

    /// Enters the element at depth `level`, which is one more than the
    /// depth so far: the bindings that its attributes declare come into
    /// scope.
    pub fn enter(&mut self, raw: &'a [u8], level: usize)
        requires
            old(self).wf(),
            level == old(self).scope().level + 1,
        ensures
            final(self).wf(),
            final(self).scope() == old(self).scope().pushed(raw@),
    {
        proof {
            lemma_pushed_ok(self.scope(), raw@);
        }
        self.level = level;
        let ghost before = bindings_view(self.bindings@);
        let mut cursor = Attributes::new(raw, false);
        assert(before + Seq::<BindingSpec>::empty() =~= before);
        let ghost mut added = Seq::<BindingSpec>::empty();
        loop
            invariant
                cursor.wf(),
                cursor.raw() == raw@,
                !cursor.with_checks(),
                self.level == level == old(self).level + 1,
                old(self).scope().pushed(raw@).ok(),
                before == bindings_view(old(self).bindings@),
                bindings_view(self.bindings@) == before + added,
                added + declared(raw@, cursor.pos(), level as nat) == declared(
                    raw@,
                    0,
                    level as nat,
                ),
            decreases raw@.len() - cursor.pos(),
        {
            let ghost at = cursor.pos();
            proof {
                cursor.lemma_cursor_in_range();
                lemma_attr_at_bounds(raw@, at);
            }
            match cursor.next_attribute() {
                Some(Ok(a)) => {
                    let ghost rest = declared(raw@, cursor.pos(), level as nat);
                    let bound = if slice_eq(a.key, "xmlns".as_bytes()) {
                        Some(Binding { prefix: subslice(a.key, 0, 0), uri: a.value, level })
                    } else {
                        match prefix(a.key) {
                            Some(p) => if slice_eq(p, "xmlns".as_bytes()) {
                                Some(Binding { prefix: local_name(a.key), uri: a.value, level })
                            } else {
                                None
                            },
                            None => None,
                        }
                    };
                    match bound {
                        Some(b) => {
                            assert(b.prefix@ =~= declaration(a@, level as nat)->0.prefix);
                            let ghost shorter = self.bindings@;
                            self.bindings.push(b);
                            proof {
                                assert(bindings_view(self.bindings@) =~= bindings_view(
                                    shorter,
                                ).push(b@));
                                assert((before + added).push(b@) =~= before + added.push(b@));
                                assert(added.push(b@) + rest =~= added + (seq![b@] + rest));
                                added = added.push(b@);
                            }
                        },
                        None => {
                            assert(added + (Seq::<BindingSpec>::empty() + rest) =~= added + rest);
                        },
                    }
                },
                _ => {
                    assert(added + Seq::<BindingSpec>::empty() =~= added);
                    return ;
                },
            }
        }
    }

    /// Leaves the innermost open element: the bindings that it declared go
    /// out of scope. At the top nothing happens.
    pub fn pop(&mut self)
        requires
            old(self).wf(),
        ensures
            final(self).wf(),
            final(self).scope() == old(self).scope().popped(),
    {
        proof {
            lemma_popped_ok(self.scope());
        }
        if self.level == 0 {
            return ;
        }
        let level = self.level;
        let ghost all = bindings_view(self.bindings@);
        while self.bindings.len() > 0 && self.bindings[self.bindings.len() - 1].level >= level
            invariant
                self.level == level == old(self).level,
                all == bindings_view(old(self).bindings@),
                trimmed(all, level as nat) == trimmed(
                    bindings_view(self.bindings@),
                    level as nat,
                ),
            decreases self.bindings@.len(),
        {
            let ghost longer = bindings_view(self.bindings@);
            assert(longer.last() == self.bindings@[self.bindings@.len() - 1]@);
            self.bindings.pop();
            assert(bindings_view(self.bindings@) =~= longer.drop_last());
        }
        proof {
            let kept = bindings_view(self.bindings@);
            if kept.len() > 0 {
                assert(kept.last() == self.bindings@[self.bindings@.len() - 1]@);
            }
        }
        self.level = level - 1;
    }

    fn find(&self, prefix: &[u8]) -> (r: Option<&'a [u8]>)
        ensures
            match r {
                Some(uri) => lookup(
                    self.scope().bindings,
                    prefix@,
                    self.scope().bindings.len() as int,
                ) == Some(uri@),
                None => lookup(self.scope().bindings, prefix@, self.scope().bindings.len() as int)
                    is None,
            },
    {
        let ghost all = bindings_view(self.bindings@);
        let mut n: usize = self.bindings.len();
        while n > 0
            invariant
                n <= self.bindings@.len(),
                all == bindings_view(self.bindings@),
                lookup(all, prefix@, all.len() as int) == lookup(all, prefix@, n as int),
            decreases n,
        {
            assert(all[n - 1] == self.bindings@[n - 1]@);
            if slice_eq(self.bindings[n - 1].prefix, prefix) {
                return Some(self.bindings[n - 1].uri);
            }
            n -= 1;
        }
        None
    }

    /// Resolves a name with the bindings in scope. `use_default` says
    /// whether a name without a prefix takes the default namespace, as the
    /// name of an element does and that of an attribute does not.
    pub fn resolve(&self, name: &[u8], use_default: bool) -> (r: ResolveResult<'a>)
        ensures
            r@ == resolve_spec(self.scope().bindings, name@, use_default),
    {
        match prefix(name) {
            Some(p) => {
                if slice_eq(p, "xml".as_bytes()) {
                    ResolveResult::Bound("http://www.w3.org/XML/1998/namespace".as_bytes())
                } else if slice_eq(p, "xmlns".as_bytes()) {
                    ResolveResult::Bound("http://www.w3.org/2000/xmlns/".as_bytes())
                } else {
                    match self.find(p) {
                        Some(uri) => if uri.len() > 0 {
                            ResolveResult::Bound(uri)
                        } else {
                            ResolveResult::Unknown(to_vec(p))
                        },
                        None => ResolveResult::Unknown(to_vec(p)),
                    }
                }
            },
            None => {
                if use_default {
                    let none: [u8; 0] = [];
                    assert(none@ =~= Seq::<u8>::empty());
                    match self.find(none.as_slice()) {
                        Some(uri) => if uri.len() > 0 {
                            ResolveResult::Bound(uri)
                        } else {
                            ResolveResult::Unbound
                        },
                        None => ResolveResult::Unbound,
                    }
                } else {
                    ResolveResult::Unbound
                }
            },
        }
    }
}

/// What the name of an event's element resolves to, given the scope before
/// the event: the name of an opening tag is resolved inside its element,
/// where the bindings that it declares are in scope; the name of a closing
/// tag before its element is left. Everything else bears no name.
pub open spec fn resolved_event_spec(scope: ScopeSpec, ev: EventSpec) -> ResolveSpec {
    match ev {
        EventSpec::Start(t) => resolve_spec(scope.pushed(t.attrs).bindings, t.name, true),
        EventSpec::Empty(t) => resolve_spec(scope.pushed(t.attrs).bindings, t.name, true),
        EventSpec::End(raw) => resolve_spec(scope.bindings, end_name(raw), true),
        _ => ResolveSpec::Unbound,
    }
}

/// The policies with self-closing tags expanded, so that every element is
/// entered and left.
pub open spec fn expanding(config: Config) -> Config {
    Config { expand_empty_elements: true, ..config }
}

/// A reader that keeps track of the namespaces in scope.
///
/// Self-closing tags are always expanded: every element is entered and
/// left, and the bindings that it declares are in scope in between.
#[derive(Debug, Clone)]
pub struct NsReader<'a> {
    reader: Reader<'a>,
    ns: NamespaceResolver<'a>,
}

impl<'a> NsReader<'a> {
    /// The reader is well formed: so are its parts, self-closing tags are
    /// expanded, and the scope is as deep as the elements that are open.
    pub closed spec fn wf(&self) -> bool {
        &&& self.reader.wf()
        &&& self.ns.wf()
        &&& self.reader.config().expand_empty_elements
        &&& self.ns.scope().level == self.reader.state().opened.len()
    }

    /// The input that the reader reads.
    pub closed spec fn input(&self) -> Seq<u8> {
        self.reader.input()
    }

    /// The policies of the reader.
    pub closed spec fn config(&self) -> Config {
        self.reader.config()
    }

    /// The state of the reader.
    pub closed spec fn state(&self) -> ReaderState {
        self.reader.state()
    }

    /// The namespaces in scope.
    pub closed spec fn scope(&self) -> ScopeSpec {
        self.ns.scope()
    }

    /// Between any two events the scope is as deep as the elements that are
    /// open, and it is sound.
    pub proof fn lemma_depths_agree(&self)
        requires
            self.wf(),
        ensures
            self.scope().level == self.state().opened.len(),
            self.scope().ok(),
            self.config().expand_empty_elements,
    {
    }

    /// A reader at the start of `input`, with the given policies but for
    /// self-closing tags, which are expanded.
    pub fn new(input: &'a [u8], config: Config) -> (r: NsReader<'a>)
        ensures
            r.wf(),
            r.input() == input@,
            r.config() == expanding(config),
            r.state() == initial_state(),
            r.scope() == (ScopeSpec { bindings: Seq::empty(), level: 0 }),
    {
        let expanding = Config {
            expand_empty_elements: true,
            trim_text_start: config.trim_text_start,
            trim_text_end: config.trim_text_end,
            check_end_names: config.check_end_names,
            check_comments: config.check_comments,
        };
        NsReader { reader: Reader::with_config(input, expanding), ns: NamespaceResolver::new() }
    }

    /// The number of elements that are open.
    pub fn depth(&self) -> (r: usize)
        ensures
            r == self.state().opened.len(),
    {
        self.reader.depth()
    }

    /// Resolves the name of an attribute of the innermost open element: a
    /// name without a prefix is unbound.
    pub fn resolve_attribute(&self, name: &[u8]) -> (r: ResolveResult<'a>)
        ensures
            r@ == resolve_spec(self.scope().bindings, name@, false),
    {
        self.ns.resolve(name, false)
    }

    /// Resolves the name of an element inside the innermost open element: a
    /// name without a prefix takes the default namespace.
    pub fn resolve_element(&self, name: &[u8]) -> (r: ResolveResult<'a>)
        ensures
            r@ == resolve_spec(self.scope().bindings, name@, true),
    {
        self.ns.resolve(name, true)
    }

    /// Advances to the next event and resolves the name of its element.
    ///
    /// An opening tag enters its element and a closing tag leaves it, so
    /// that afterwards the scope is that of the event's surroundings. An
    /// error leaves the reader and the scope as they were.
    pub fn read_resolved_event(&mut self) -> (r: Result<(ResolveResult<'a>, Event<'a>), Error>)
        requires
            old(self).wf(),
        ensures
            final(self).wf(),
            final(self).input() == old(self).input(),
            final(self).config() == old(self).config(),
            final(self).state() == step(
                old(self).input(),
                old(self).config(),
                old(self).state(),
            ).next,
            match r {
                Ok((resolved, ev)) => {
                    &&& step(old(self).input(), old(self).config(), old(self).state()).result
                        == Ok::<EventSpec, ErrorSpec>(ev@)
                    &&& ev.is_borrowed()
                    &&& resolved@ == resolved_event_spec(old(self).scope(), ev@)
                    &&& final(self).scope() == old(self).scope().after(ev@)
                },
                Err(e) => {
                    &&& step(old(self).input(), old(self).config(), old(self).state()).result
                        == Err::<EventSpec, ErrorSpec>(e@)
                    &&& final(self).scope() == old(self).scope()
                },
            },
    {
        proof {
            self.reader.lemma_wf_state_ok();
            lemma_step_opened(self.reader.input(), self.reader.config(), self.reader.state());
        }
        match self.reader.read_event() {
            Err(e) => Err(e),
            Ok(ev) => {
                let depth = self.reader.depth();
                match &ev {
                    Event::Start(e) => {
                        self.ns.enter(e.attributes_borrowed(), depth);
                        let resolved = self.ns.resolve(e.name(), true);
                        Ok((resolved, ev))
                    },
                    Event::End(e) => {
                        let resolved = self.ns.resolve(e.name(), true);
                        self.ns.pop();
                        Ok((resolved, ev))
                    },
                    Event::Empty(_) => {
                        proof {
                            assert(false);
                        }
                        Ok((ResolveResult::Unbound, ev))
                    },
                    _ => Ok((ResolveResult::Unbound, ev)),
                }
            },
        }
    }
}

} // verus!
