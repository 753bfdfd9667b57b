//! Test scaffolding: one policy block beside the plugin declarations its steps
//! name.
//!
//! A test document is a YAML mapping with at most two keys: a root `plugins:`
//! list of full declarations, and one policy block under `route:`. Any other
//! key is refused. A duplicate plugin name is last-one-wins.
//!
//! The YAML text is deserialized into a [`TestDocument`] where serde runs
//! (`deny_unknown_fields`, every key defaulted); this module decides what the
//! read document compiles to. Compiling the terms of a policy block belongs to
//! the APL compiler, so a [`CompiledRoute`] here carries the block it was
//! given, attributed to its source.
use vstd::prelude::*;

verus! {

/// A YAML value as `serde_yaml` parses it.
#[verifier::external_type_specification]
#[verifier::external_body]
pub struct ExYamlValue(serde_yaml::Value);

// ---------------------------------------------------------------------------
// The document.
// ---------------------------------------------------------------------------

/// Why a test document was refused.
#[derive(Debug)]
pub enum ParseError {
    /// The text does not deserialize as a test document: it is not YAML, it
    /// carries a key other than `plugins` and `route`, or a declaration is
    /// malformed. Holds the reader's description.
    Yaml(String),
}

/// One entry of the root `plugins:` list: the name steps refer to it by, and
/// the rest of the declaration as written.
pub struct PluginDeclaration {
    /// The plugin's name.
    pub name: String,
    /// The declaration's other keys (`kind:`, `hooks:`, `config:`, ...).
    pub spec: serde_yaml::Value,
}

/// A test document: the root `plugins:` list and the optional `route:` block.
pub struct TestDocument {
    /// Root `plugins:` block, in the order written.
    pub plugins: Vec<PluginDeclaration>,
    /// The policy block under `route:`, if the document has one.
    pub route: Option<serde_yaml::Value>,
}

/// A route compiled from a policy block, attributed to its source.
pub struct CompiledRoute {
    /// The diagnostic path prefix a section name gives a real load.
    pub source: String,
    /// The block the route comes from; `None` for a route that declares nothing.
    pub block: Option<serde_yaml::Value>,
}

impl CompiledRoute {
    /// A route that declares nothing, attributed to `source`.
    pub fn new(source: &str) -> (r: CompiledRoute)
        ensures
            r.source@ == source@,
            r.block is None,
    {
        CompiledRoute { source: String::from_str(source), block: None }
    }

    /// The route a block compiles to, attributed to `source`.
    pub fn from_block(source: &str, block: serde_yaml::Value) -> (r: CompiledRoute)
        ensures
            r.source@ == source@,
            r.block == Some(block),
    {
        CompiledRoute { source: String::from_str(source), block: Some(block) }
    }
}

impl Default for CompiledRoute {
    /// A route that declares nothing, attributed to no source.
    fn default() -> (r: CompiledRoute)
        ensures
            r.source@ == Seq::<char>::empty(),
            r.block is None,
    {
        CompiledRoute { source: String::new(), block: None }
    }
}

// ---------------------------------------------------------------------------
// The registry: named declarations, last one wins.
// ---------------------------------------------------------------------------

/// The map that inserting `entries` in order produces: a later entry under a
/// name replaces an earlier one.
pub open spec fn last_wins(entries: Seq<(Seq<char>, PluginDeclaration)>) -> Map<
    Seq<char>,
    PluginDeclaration,
>
    decreases entries.len(),
{
    if entries.len() == 0 {
        Map::empty()
    } else {
        last_wins(entries.drop_last()).insert(entries.last().0, entries.last().1)
    }
}

/// The declarations a dispatcher resolves plugin names against.
///
/// The entries are kept as a list of name and declaration pairs, read as a
/// map in which the last entry for a name wins. std's keyed maps would not
/// serve here: vstd specifies `HashMap` only for keys whose hashing it
/// models (`obeys_key_model`) and `BTreeMap` only for keys whose ordering
/// it models (`key_obeys_cmp_spec`); both are given for integers and `bool`,
/// not for `String`, so a lookup by a plugin's name would come back with
/// nothing proved of it. The list gives the same lookups with exact
/// contracts, at the cost of a backward scan in `get`.
pub struct PluginRegistry {
    entries: Vec<(String, PluginDeclaration)>,
}

impl PluginRegistry {
    /// The registry's entries in insertion order, names taken as text.
    pub closed spec fn entries_view(&self) -> Seq<(Seq<char>, PluginDeclaration)> {
        self.entries@.map_values(|e: (String, PluginDeclaration)| (e.0@, e.1))
    }
}

impl View for PluginRegistry {
    type V = Map<Seq<char>, PluginDeclaration>;

    closed spec fn view(&self) -> Map<Seq<char>, PluginDeclaration> {
        last_wins(self.entries_view())
    }
}

proof fn lemma_last_wins_lookup(entries: Seq<(Seq<char>, PluginDeclaration)>, j: int, k: Seq<char>)
    requires
        0 <= j < entries.len(),
        entries[j].0 == k,
        forall|i: int| j < i < entries.len() ==> (#[trigger] entries[i]).0 != k,
    ensures
        last_wins(entries).contains_key(k),
        last_wins(entries)[k] == entries[j].1,
    decreases entries.len(),
{
    if j < entries.len() - 1 {
        let d = entries.drop_last();
        assert forall|i: int| j < i < d.len() implies (#[trigger] d[i]).0 != k by {
            assert(d[i] == entries[i]);
        }
        lemma_last_wins_lookup(d, j, k);
    }
}

proof fn lemma_last_wins_absent(entries: Seq<(Seq<char>, PluginDeclaration)>, k: Seq<char>)
    requires
        forall|i: int| 0 <= i < entries.len() ==> (#[trigger] entries[i]).0 != k,
    ensures
        !last_wins(entries).contains_key(k),
    decreases entries.len(),
{
    if entries.len() > 0 {
        let d = entries.drop_last();
        assert forall|i: int| 0 <= i < d.len() implies (#[trigger] d[i]).0 != k by {
            assert(d[i] == entries[i]);
        }
        lemma_last_wins_absent(d, k);
    }
}

/// A duplicate plugin name is last-one-wins: registering declarations in
/// order maps each name to the last declaration that carries it.
pub proof fn law_last_declaration_wins(decls: Seq<PluginDeclaration>, j: int)
    requires
        0 <= j < decls.len(),
        forall|i: int| j < i < decls.len() ==> (#[trigger] decls[i]).name@ != decls[j].name@,
    ensures
        last_wins(named(decls)).contains_key(decls[j].name@),
        last_wins(named(decls))[decls[j].name@] == decls[j],
{
    let e = named(decls);
    assert forall|i: int| j < i < e.len() implies (#[trigger] e[i]).0 != decls[j].name@ by {
        assert(e[i] == (decls[i].name@, decls[i]));
    }
    lemma_last_wins_lookup(e, j, decls[j].name@);
}

impl PluginRegistry {
    /// An empty registry.
    pub fn new() -> (r: PluginRegistry)
        ensures
            r@ == Map::<Seq<char>, PluginDeclaration>::empty(),
    {
        let r = PluginRegistry { entries: Vec::new() };
        proof {
            assert(r.entries_view() =~= Seq::<(Seq<char>, PluginDeclaration)>::empty());
        }
        r
    }

    /// An empty registry with room for `capacity` declarations.
    pub fn with_capacity(capacity: usize) -> (r: PluginRegistry)
        ensures
            r@ == Map::<Seq<char>, PluginDeclaration>::empty(),
    {
        let r = PluginRegistry { entries: Vec::with_capacity(capacity) };
        proof {
            assert(r.entries_view() =~= Seq::<(Seq<char>, PluginDeclaration)>::empty());
        }
        r
    }

    /// Registers `decl` under `name`, replacing any declaration already there.
    pub fn insert(&mut self, name: String, decl: PluginDeclaration)
        ensures
            final(self)@ == old(self)@.insert(name@, decl),
    {
        let ghost before = self.entries_view();
        let ghost key = name@;
        self.entries.push((name, decl));
        proof {
            assert(self.entries_view().drop_last() =~= before);
            assert(self.entries_view().last() == (key, decl));
        }
    }

    /// The declaration registered under `name`, if any.
    pub fn get(&self, name: &str) -> (r: Option<&PluginDeclaration>)
        ensures
            match r {
                Some(d) => self@.contains_key(name@) && self@[name@] == *d,
                None => !self@.contains_key(name@),
            },
    {
        let key = String::from_str(name);
        let mut i = self.entries.len();
        while i > 0
            invariant
                i <= self.entries@.len(),
                key@ == name@,
                forall|j: int|
                    i <= j < self.entries@.len() ==> (#[trigger] self.entries_view()[j]).0
                        != name@,
            decreases i,
        {
            let e = &self.entries[i - 1];
            proof {
                assert(self.entries_view()[i - 1] == (e.0@, e.1));
            }
            if e.0 == key {
                proof {
                    lemma_last_wins_lookup(self.entries_view(), i - 1, name@);
                }
                return Some(&e.1);
            }
            i = i - 1;
        }
        proof {
            lemma_last_wins_absent(self.entries_view(), name@);
        }
        None
    }
}

// ---------------------------------------------------------------------------
// Compiling a test document.
// ---------------------------------------------------------------------------

/// A compiled policy block and the plugin registry its steps name.
pub struct TestPolicy {
    /// The compiled block.
    pub route: CompiledRoute,
    /// Declarations the block's steps refer to by name.
    pub plugins: PluginRegistry,
}

impl Default for TestPolicy {
    /// An empty route with no declarations.
    fn default() -> (r: TestPolicy)
        ensures
            r.route.source@ == Seq::<char>::empty(),
            r.route.block is None,
            r.plugins@ == Map::<Seq<char>, PluginDeclaration>::empty(),
    {
        TestPolicy { route: CompiledRoute::default(), plugins: PluginRegistry::new() }
    }
}

/// The declarations of `decls` keyed by their names.
pub open spec fn named(decls: Seq<PluginDeclaration>) -> Seq<(Seq<char>, PluginDeclaration)> {
    decls.map_values(|d: PluginDeclaration| (d.name@, d))
}

impl TestPolicy {
    /// The route and registry a read document gives: the block compiled under
    /// `source` (an empty route when there is none), and every declaration
    /// registered under its own name, a later one replacing an earlier one.
    pub fn from_document(source: &str, doc: TestDocument) -> (r: TestPolicy)
        ensures
            r.route.source@ == source@,
            r.route.block == doc.route,
            r.plugins@ == last_wins(named(doc.plugins@)),
    {
        let TestDocument { plugins: decls, route: block } = doc;
        let ghost all = decls@;
        let route = match block {
            Some(b) => CompiledRoute::from_block(source, b),
            None => CompiledRoute::new(source),
        };
        let mut plugins = PluginRegistry::with_capacity(decls.len());
        let mut rest = decls;
        let ghost mut done: int = 0;
        proof {
            assert(named(all.take(0)) =~= Seq::<(Seq<char>, PluginDeclaration)>::empty());
        }
        while rest.len() > 0
            invariant
                0 <= done <= all.len(),
                rest@ == all.skip(done),
                plugins@ == last_wins(named(all.take(done))),
            decreases rest.len(),
        {
            let d = rest.remove(0);
            proof {
                assert(d == all[done]);
                assert(named(all.take(done + 1)).drop_last() =~= named(all.take(done)));
                assert(named(all.take(done + 1)).last() == (d.name@, d));
                assert(rest@ =~= all.skip(done + 1));
                done = done + 1;
            }
            let name = d.name.clone();
            plugins.insert(name, d);
        }
        proof {
            assert(all.take(done) =~= all);
        }
        TestPolicy { route, plugins }
    }
}


/// Compile a read test document into one route plus its plugin registry.
///
/// `source` is the diagnostic path prefix the route is attributed to. A
/// document without a `route:` block gives an empty route; a duplicate plugin
/// name is last-one-wins. A document that did not deserialize is refused with
/// the reader's error.
pub fn compile_test_policy(source: &str, doc: Result<TestDocument, ParseError>) -> (r: Result<
    TestPolicy,
    ParseError,
>)
    ensures
        match doc {
            Ok(d) => r matches Ok(p) && p.route.source@ == source@ && p.route.block == d.route
                && p.plugins@ == last_wins(named(d.plugins@)),
            Err(e) => r == Err::<TestPolicy, ParseError>(e),
        },
{
    match doc {
        Ok(d) => Ok(TestPolicy::from_document(source, d)),
        Err(e) => Err(e),
    }
}

/// Compile just the policy block of a read test document: the route that
/// `compile_test_policy` gives, or its error.
pub fn compile_test_route(source: &str, doc: Result<TestDocument, ParseError>) -> (r: Result<
    CompiledRoute,
    ParseError,
>)
    ensures
        match doc {
            Ok(d) => r matches Ok(route) && route.source@ == source@ && route.block == d.route,
            Err(e) => r == Err::<CompiledRoute, ParseError>(e),
        },
{
    match compile_test_policy(source, doc) {
        Ok(p) => Ok(p.route),
        Err(e) => Err(e),
    }
}

} // verus!
