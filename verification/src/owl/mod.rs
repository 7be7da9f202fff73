//! OWL 2 RL ontology layer: class hierarchy, materialization, and validation.
//!
//! An OWL ontology is parsed from Turtle (it is just RDF with OWL vocabulary),
//! its axioms are extracted, entailments are materialized to a fixpoint into
//! the ROOT graph's companion inferred graph, and write-time constraints
//! (disjoint classes, functional properties) are validated.

use vstd::prelude::*;

use crate::text::{chars_of, decimal, owned, push_str, str_eq, string_from_chars, usize_to_string};
use crate::value::Error;

pub mod reach;
pub mod triple;
pub mod rules;
pub mod materialize;
pub mod validate;
pub mod reactive;

verus! {

/// `owl:disjointWith`.
pub const OWL_DISJOINT_WITH: &'static str = "http://www.w3.org/2002/07/owl#disjointWith";

/// `owl:inverseOf`.
pub const OWL_INVERSE_OF: &'static str = "http://www.w3.org/2002/07/owl#inverseOf";

/// `owl:FunctionalProperty`.
pub const OWL_FUNCTIONAL_PROPERTY: &'static str = "http://www.w3.org/2002/07/owl#FunctionalProperty";

/// `owl:SymmetricProperty`.
pub const OWL_SYMMETRIC_PROPERTY: &'static str = "http://www.w3.org/2002/07/owl#SymmetricProperty";

/// `owl:TransitiveProperty`.
pub const OWL_TRANSITIVE_PROPERTY: &'static str = "http://www.w3.org/2002/07/owl#TransitiveProperty";

/// `owl:equivalentClass`.
pub const OWL_EQUIVALENT_CLASS: &'static str = "http://www.w3.org/2002/07/owl#equivalentClass";

/// `owl:equivalentProperty`.
pub const OWL_EQUIVALENT_PROPERTY: &'static str = "http://www.w3.org/2002/07/owl#equivalentProperty";

/// `rdfs:subPropertyOf`.
pub const RDFS_SUB_PROPERTY_OF: &'static str = "http://www.w3.org/2000/01/rdf-schema#subPropertyOf";

/// `rdfs:domain`.
pub const RDFS_DOMAIN: &'static str = "http://www.w3.org/2000/01/rdf-schema#domain";

/// `rdfs:range`.
pub const RDFS_RANGE: &'static str = "http://www.w3.org/2000/01/rdf-schema#range";

/// An IRI pair, by content.
pub type PairView = (Seq<char>, Seq<char>);

/// Extracted OWL/RDFS axioms of an ontology.
///
/// The property lists and `disjoint_with` are sets: nothing occurs twice, and
/// entries keep the order in which the ontology first stated them.
#[derive(Debug, Clone)]
pub struct Axioms {
    /// `rdfs:subClassOf` pairs: (sub, super).
    pub subclass_of: Vec<(String, String)>,
    /// `rdfs:subPropertyOf` pairs: (sub, super).
    pub subproperty_of: Vec<(String, String)>,
    /// `owl:disjointWith` pairs, stored in both directions.
    pub disjoint_with: Vec<(String, String)>,
    /// `owl:inverseOf` pairs, stored in both directions.
    pub inverse_of: Vec<(String, String)>,
    /// IRIs of `owl:FunctionalProperty` instances.
    pub functional_properties: Vec<String>,
    /// IRIs of `owl:SymmetricProperty` instances.
    pub symmetric_properties: Vec<String>,
    /// IRIs of `owl:TransitiveProperty` instances.
    pub transitive_properties: Vec<String>,
    /// `owl:equivalentClass` pairs.
    pub equivalent_classes: Vec<(String, String)>,
    /// `owl:equivalentProperty` pairs.
    pub equivalent_properties: Vec<(String, String)>,
    /// `rdfs:domain` pairs: (property, class).
    pub domains: Vec<(String, String)>,
    /// `rdfs:range` pairs: (property, class).
    pub ranges: Vec<(String, String)>,
}

/// The content of [`Axioms`].
#[verifier::ext_equal]
pub ghost struct AxView {
    pub subclass_of: Seq<PairView>,
    pub subproperty_of: Seq<PairView>,
    pub disjoint_with: Seq<PairView>,
    pub inverse_of: Seq<PairView>,
    pub functional_properties: Seq<Seq<char>>,
    pub symmetric_properties: Seq<Seq<char>>,
    pub transitive_properties: Seq<Seq<char>>,
    pub equivalent_classes: Seq<PairView>,
    pub equivalent_properties: Seq<PairView>,
    pub domains: Seq<PairView>,
    pub ranges: Seq<PairView>,
}

/// The contents of a pair list.
pub open spec fn pairs_view(v: Seq<(String, String)>) -> Seq<PairView> {
    v.map_values(|p: (String, String)| (p.0@, p.1@))
}

/// The contents of a string list.
pub open spec fn names_view(v: Seq<String>) -> Seq<Seq<char>> {
    v.map_values(|s: String| s@)
}

impl View for Axioms {
    type V = AxView;

    open spec fn view(&self) -> AxView {
        AxView {
            subclass_of: pairs_view(self.subclass_of@),
            subproperty_of: pairs_view(self.subproperty_of@),
            disjoint_with: pairs_view(self.disjoint_with@),
            inverse_of: pairs_view(self.inverse_of@),
            functional_properties: names_view(self.functional_properties@),
            symmetric_properties: names_view(self.symmetric_properties@),
            transitive_properties: names_view(self.transitive_properties@),
            equivalent_classes: pairs_view(self.equivalent_classes@),
            equivalent_properties: pairs_view(self.equivalent_properties@),
            domains: pairs_view(self.domains@),
            ranges: pairs_view(self.ranges@),
        }
    }
}

/// No axioms at all.
pub open spec fn no_axioms() -> AxView {
    AxView {
        subclass_of: Seq::empty(),
        subproperty_of: Seq::empty(),
        disjoint_with: Seq::empty(),
        inverse_of: Seq::empty(),
        functional_properties: Seq::empty(),
        symmetric_properties: Seq::empty(),
        transitive_properties: Seq::empty(),
        equivalent_classes: Seq::empty(),
        equivalent_properties: Seq::empty(),
        domains: Seq::empty(),
        ranges: Seq::empty(),
    }
}

/// `v` with `x` added unless already present.
pub open spec fn set_insert<A>(v: Seq<A>, x: A) -> Seq<A> {
    if v.contains(x) {
        v
    } else {
        v.push(x)
    }
}

/// A raw triple, by content: `(subject, predicate, object)`.
pub type RawView = (Seq<char>, Seq<char>, Seq<char>);

/// The axioms after reading one more triple.
pub open spec fn add_triple(ax: AxView, t: RawView) -> AxView {
    let (s, p, o) = t;
    if p == crate::namespace::RDFS_SUBCLASS_OF@ {
        AxView { subclass_of: ax.subclass_of.push((s, o)), ..ax }
    } else if p == RDFS_SUB_PROPERTY_OF@ {
        AxView { subproperty_of: ax.subproperty_of.push((s, o)), ..ax }
    } else if p == OWL_DISJOINT_WITH@ {
        AxView { disjoint_with: set_insert(set_insert(ax.disjoint_with, (s, o)), (o, s)), ..ax }
    } else if p == OWL_INVERSE_OF@ {
        AxView { inverse_of: ax.inverse_of.push((s, o)).push((o, s)), ..ax }
    } else if p == OWL_EQUIVALENT_CLASS@ {
        AxView { equivalent_classes: ax.equivalent_classes.push((s, o)), ..ax }
    } else if p == OWL_EQUIVALENT_PROPERTY@ {
        AxView { equivalent_properties: ax.equivalent_properties.push((s, o)), ..ax }
    } else if p == RDFS_DOMAIN@ {
        AxView { domains: ax.domains.push((s, o)), ..ax }
    } else if p == RDFS_RANGE@ {
        AxView { ranges: ax.ranges.push((s, o)), ..ax }
    } else if p == crate::namespace::RDF_TYPE@ {
        if o == OWL_FUNCTIONAL_PROPERTY@ {
            AxView { functional_properties: set_insert(ax.functional_properties, s), ..ax }
        } else if o == OWL_SYMMETRIC_PROPERTY@ {
            AxView { symmetric_properties: set_insert(ax.symmetric_properties, s), ..ax }
        } else if o == OWL_TRANSITIVE_PROPERTY@ {
            AxView { transitive_properties: set_insert(ax.transitive_properties, s), ..ax }
        } else {
            ax
        }
    } else {
        ax
    }
}

/// The axioms stated by `ts`, read in order.
pub open spec fn extract_spec(ts: Seq<RawView>) -> AxView
    decreases ts.len(),
{
    if ts.len() == 0 {
        no_axioms()
    } else {
        add_triple(extract_spec(ts.drop_last()), ts.last())
    }
}

/// `s` without one pair of enclosing angle brackets.
pub open spec fn strip_spec(s: Seq<char>) -> Seq<char> {
    if s.len() >= 2 && s[0] == '<' && s.last() == '>' {
        s.subrange(1, s.len() - 1)
    } else {
        s
    }
}

/// Each term of each triple, stripped.
pub open spec fn strip_all(ts: Seq<RawView>) -> Seq<RawView> {
    ts.map_values(|t: RawView| (strip_spec(t.0), strip_spec(t.1), strip_spec(t.2)))
}

/// The contents of a raw triple list.
pub open spec fn raws_view(v: Seq<(String, String, String)>) -> Seq<RawView> {
    v.map_values(|t: (String, String, String)| (t.0@, t.1@, t.2@))
}

/// An OWL ontology parsed from Turtle.
#[derive(Debug, Clone)]
pub struct Ontology {
    /// All raw triples from the ontology document.
    pub triples: Vec<(String, String, String)>,
    /// Extracted axioms.
    pub axioms: Axioms,
}

/// Counts of inferred facts, by rule family.
#[derive(Debug, Clone, Copy, PartialEq, Eq, Structural)]
pub struct MaterializeReport {
    /// Subclass type inferences (instance of a super class).
    pub subclass_inferences: usize,
    /// Subproperty restatements under a super property.
    pub sub_property_inferences: usize,
    /// Inverse property inferences.
    pub inverse_inferences: usize,
    /// Symmetric property inferences.
    pub symmetric_inferences: usize,
    /// Transitive property inferences.
    pub transitive_inferences: usize,
    /// Equivalent class type inferences.
    pub equivalent_class_inferences: usize,
    /// Equivalent property restatements.
    pub equivalent_property_inferences: usize,
    /// `owl:sameAs` identity and rewrite inferences.
    pub same_as_inferences: usize,
    /// Domain/range type inferences.
    pub domain_range_inferences: usize,
    /// Total new facts materialized.
    pub total: usize,
    /// Facts read as premises, over all passes.
    pub premise_facts_read: usize,
    /// Derivation passes run.
    pub passes: usize,
    /// The pass budget ran out with work still pending: the closure is
    /// partial.
    pub pass_budget_exhausted: bool,
}

impl MaterializeReport {
    /// All counts zero.
    pub fn empty() -> (r: MaterializeReport)
        ensures
            r == (MaterializeReport {
                subclass_inferences: 0,
                sub_property_inferences: 0,
                inverse_inferences: 0,
                symmetric_inferences: 0,
                transitive_inferences: 0,
                equivalent_class_inferences: 0,
                equivalent_property_inferences: 0,
                same_as_inferences: 0,
                domain_range_inferences: 0,
                total: 0,
                premise_facts_read: 0,
                passes: 0,
                pass_budget_exhausted: false,
            }),
    {
        MaterializeReport {
            subclass_inferences: 0,
            sub_property_inferences: 0,
            inverse_inferences: 0,
            symmetric_inferences: 0,
            transitive_inferences: 0,
            equivalent_class_inferences: 0,
            equivalent_property_inferences: 0,
            same_as_inferences: 0,
            domain_range_inferences: 0,
            total: 0,
            premise_facts_read: 0,
            passes: 0,
            pass_budget_exhausted: false,
        }
    }
}

/// Whether `x` is one of `v`.
pub(crate) fn has_name(v: &Vec<String>, x: &String) -> (r: bool)
    ensures
        r == names_view(v@).contains(x@),
{
    let mut i: usize = 0;
    while i < v.len()
        invariant
            i <= v@.len(),
            forall|k: int| 0 <= k < i ==> v@[k]@ != x@,
        decreases v.len() - i,
    {
        if str_eq(v[i].as_str(), x.as_str()) {
            proof {
                assert(names_view(v@)[i as int] == x@);
            }
            return true;
        }
        i = i + 1;
    }
    proof {
        if names_view(v@).contains(x@) {
            let k = choose|k: int| 0 <= k < names_view(v@).len() && names_view(v@)[k] == x@;
            assert(v@[k]@ == x@);
        }
    }
    false
}

/// Whether `(a, b)` is one of `v`.
pub(crate) fn has_pair(v: &Vec<(String, String)>, a: &String, b: &String) -> (r: bool)
    ensures
        r == pairs_view(v@).contains((a@, b@)),
{
    let mut i: usize = 0;
    while i < v.len()
        invariant
            i <= v@.len(),
            forall|k: int| 0 <= k < i ==> (v@[k].0@, v@[k].1@) != (a@, b@),
        decreases v.len() - i,
    {
        if str_eq(v[i].0.as_str(), a.as_str()) && str_eq(v[i].1.as_str(), b.as_str()) {
            proof {
                assert(pairs_view(v@)[i as int] == (a@, b@));
            }
            return true;
        }
        i = i + 1;
    }
    proof {
        if pairs_view(v@).contains((a@, b@)) {
            let k = choose|k: int| 0 <= k < pairs_view(v@).len() && pairs_view(v@)[k] == (a@, b@);
            assert((v@[k].0@, v@[k].1@) == (a@, b@));
        }
    }
    false
}

fn push_pair(v: &mut Vec<(String, String)>, a: &String, b: &String)
    ensures
        pairs_view(final(v)@) == pairs_view(old(v)@).push((a@, b@)),
{
    v.push((a.clone(), b.clone()));
    proof {
        assert(pairs_view(v@) =~= pairs_view(old(v)@).push((a@, b@)));
    }
}

fn insert_pair(v: &mut Vec<(String, String)>, a: &String, b: &String)
    ensures
        pairs_view(final(v)@) == set_insert(pairs_view(old(v)@), (a@, b@)),
{
    if !has_pair(v, a, b) {
        push_pair(v, a, b);
    }
}

fn insert_name(v: &mut Vec<String>, a: &String)
    ensures
        names_view(final(v)@) == set_insert(names_view(old(v)@), a@),
{
    if !has_name(v, a) {
        v.push(a.clone());
        proof {
            assert(names_view(v@) =~= names_view(old(v)@).push(a@));
        }
    }
}

impl Axioms {
    /// No axioms.
    pub fn new() -> (r: Axioms)
        ensures
            r@ == no_axioms(),
    {
        let r = Axioms {
            subclass_of: Vec::new(),
            subproperty_of: Vec::new(),
            disjoint_with: Vec::new(),
            inverse_of: Vec::new(),
            functional_properties: Vec::new(),
            symmetric_properties: Vec::new(),
            transitive_properties: Vec::new(),
            equivalent_classes: Vec::new(),
            equivalent_properties: Vec::new(),
            domains: Vec::new(),
            ranges: Vec::new(),
        };
        proof {
            assert(r@ =~= no_axioms());
        }
        r
    }

    /// Record what one triple states.
    fn add(&mut self, s: &String, p: &String, o: &String)
        ensures
            final(self)@ == add_triple(old(self)@, (s@, p@, o@)),
    {
        if str_eq(p.as_str(), crate::namespace::RDFS_SUBCLASS_OF) {
            push_pair(&mut self.subclass_of, s, o);
        } else if str_eq(p.as_str(), RDFS_SUB_PROPERTY_OF) {
            push_pair(&mut self.subproperty_of, s, o);
        } else if str_eq(p.as_str(), OWL_DISJOINT_WITH) {
            insert_pair(&mut self.disjoint_with, s, o);
            insert_pair(&mut self.disjoint_with, o, s);
        } else if str_eq(p.as_str(), OWL_INVERSE_OF) {
            push_pair(&mut self.inverse_of, s, o);
            push_pair(&mut self.inverse_of, o, s);
        } else if str_eq(p.as_str(), OWL_EQUIVALENT_CLASS) {
            push_pair(&mut self.equivalent_classes, s, o);
        } else if str_eq(p.as_str(), OWL_EQUIVALENT_PROPERTY) {
            push_pair(&mut self.equivalent_properties, s, o);
        } else if str_eq(p.as_str(), RDFS_DOMAIN) {
            push_pair(&mut self.domains, s, o);
        } else if str_eq(p.as_str(), RDFS_RANGE) {
            push_pair(&mut self.ranges, s, o);
        } else if str_eq(p.as_str(), crate::namespace::RDF_TYPE) {
            if str_eq(o.as_str(), OWL_FUNCTIONAL_PROPERTY) {
                insert_name(&mut self.functional_properties, s);
            } else if str_eq(o.as_str(), OWL_SYMMETRIC_PROPERTY) {
                insert_name(&mut self.symmetric_properties, s);
            } else if str_eq(o.as_str(), OWL_TRANSITIVE_PROPERTY) {
                insert_name(&mut self.transitive_properties, s);
            }
        }
    }
}

/// Extract the OWL/RDFS axioms stated by `triples`, in order.
pub fn extract_axioms(triples: &Vec<(String, String, String)>) -> (ax: Axioms)
    ensures
        ax@ == extract_spec(raws_view(triples@)),
{
    let ghost tv = raws_view(triples@);
    let mut ax = Axioms::new();
    let mut i: usize = 0;
    while i < triples.len()
        invariant
            i <= triples@.len(),
            tv == raws_view(triples@),
            ax@ == extract_spec(tv.take(i as int)),
        decreases triples.len() - i,
    {
        proof {
            assert(tv.take(i + 1).drop_last() =~= tv.take(i as int));
            assert(tv.take(i + 1).last() == tv[i as int]);
        }
        ax.add(&triples[i].0, &triples[i].1, &triples[i].2);
        i = i + 1;
    }
    proof {
        assert(tv.take(tv.len() as int) =~= tv);
    }
    ax
}

/// `s` without one pair of enclosing angle brackets.
pub fn strip_angles(s: &str) -> (r: String)
    ensures
        r@ == strip_spec(s@),
{
    let cs = chars_of(s);
    let n = cs.len();
    if n >= 2 && cs[0] == '<' && cs[n - 1] == '>' {
        let mut inner: Vec<char> = Vec::new();
        let mut i: usize = 1;
        while i < n - 1
            invariant
                1 <= i <= n - 1,
                n == cs@.len(),
                inner@ == cs@.subrange(1, i as int),
            decreases n - 1 - i,
        {
            inner.push(cs[i]);
            proof {
                assert(inner@ =~= cs@.subrange(1, i + 1));
            }
            i = i + 1;
        }
        string_from_chars(inner.as_slice())
    } else {
        string_from_chars(cs.as_slice())
    }
}

/// What `oxttl`'s Turtle parser (base IRI `http://example.org/`) reads
/// from `text`: `None` when it reports an error, else the triples in the
/// order read, each term in N-Triples syntax. Where the text has anonymous
/// blank nodes their labels are drawn at random, and the triples given here
/// stand for one of the possible readings.
pub uninterp spec fn turtle_terms(text: Seq<char>) -> Option<Seq<RawView>>;

/// The Turtle parser reads all of `text` without an error.
pub open spec fn turtle_parses(text: Seq<char>) -> bool {
    turtle_terms(text) is Some
}

/// `text` can state no anonymous blank node: it has none of the characters
/// `[`, `(`, `~` and `{`, and no `<<`, which every such node needs.
pub open spec fn anon_free(text: Seq<char>) -> bool {
    &&& forall|i: int| 0 <= i < text.len() ==> #[trigger] text[i] != '[' && text[i] != '(' && text[i] != '~' && text[i] != '{'
    &&& forall|i: int| 0 <= i < text.len() - 1 ==> !(#[trigger] text[i] == '<' && text[i + 1] == '<')
}

/// Parse Turtle with `oxttl::TurtleParser` (base IRI `http://example.org/`),
/// rendering each triple's subject, predicate and object with their
/// `Display` impls (N-Triples syntax). Whether it succeeds is a function of
/// the text. So are the triples, except where the text has anonymous blank
/// nodes (`[]`, property lists, collections, reifiers), which get fresh
/// random labels on every parse: for text without them the triples are
/// stated. An `Err` carries the parser's message, which is left unsaid.
#[verifier::external_body]
fn parse_turtle_terms(turtle: &str) -> (r: Result<Vec<(String, String, String)>, String>)
    ensures
        r is Ok <==> turtle_parses(turtle@),
        anon_free(turtle@) ==> (r matches Ok(v) ==> Some(raws_view(v@)) == turtle_terms(turtle@)),
{
    let parser = oxttl::TurtleParser::new()
        .with_base_iri("http://example.org/")
        .map_err(|e| format!("base IRI error: {e}"))?;
    let mut triples = Vec::new();
    for result in parser.for_reader(turtle.as_bytes()) {
        let t = result.map_err(|e| format!("Turtle parse error: {e}"))?;
        triples.push((t.subject.to_string(), t.predicate.to_string(), t.object.to_string()));
    }
    Ok(triples)
}

impl Ontology {
    /// The raw triples, by content.
    pub open spec fn triples_view(&self) -> Seq<RawView> {
        raws_view(self.triples@)
    }

    /// The ontology stated by already-parsed `triples` (terms in N-Triples
    /// syntax): IRIs lose their angle brackets and the axioms are extracted.
    pub fn from_triples(triples: Vec<(String, String, String)>) -> (o: Ontology)
        ensures
            o.triples_view() == strip_all(raws_view(triples@)),
            o.axioms@ == extract_spec(o.triples_view()),
    {
        let ghost raw = raws_view(triples@);
        let mut stripped: Vec<(String, String, String)> = Vec::new();
        let mut i: usize = 0;
        while i < triples.len()
            invariant
                i <= triples@.len(),
                raw == raws_view(triples@),
                raws_view(stripped@) == strip_all(raw).take(i as int),
            decreases triples.len() - i,
        {
            let s = strip_angles(triples[i].0.as_str());
            let p = strip_angles(triples[i].1.as_str());
            let o = strip_angles(triples[i].2.as_str());
            let ghost before = stripped@;
            proof {
                assert(raw[i as int] == (triples@[i as int].0@, triples@[i as int].1@, triples@[i as int].2@));
                assert(strip_all(raw)[i as int] == (s@, p@, o@));
            }
            stripped.push((s, p, o));
            proof {
                assert(raws_view(stripped@) =~= raws_view(before).push(strip_all(raw)[i as int]));
                assert(strip_all(raw).take(i + 1) =~= strip_all(raw).take(i as int).push(strip_all(raw)[i as int]));
                assert(raws_view(stripped@) =~= strip_all(raw).take(i + 1));
            }
            i = i + 1;
        }
        proof {
            assert(strip_all(raw).take(raw.len() as int) =~= strip_all(raw));
        }
        let axioms = extract_axioms(&stripped);
        Ontology { triples: stripped, axioms }
    }

    /// Parse an OWL ontology from Turtle.
    pub fn from_turtle(turtle: &str) -> (r: Result<Ontology, Error>)
        ensures
            r matches Ok(o) ==> o.axioms@ == extract_spec(o.triples_view()) && exists|raw: Seq<RawView>|
                o.triples_view() == strip_all(raw),
            r matches Err(e) ==> e.is_invalid(),
            r is Ok <==> turtle_parses(turtle@),
            anon_free(turtle@) ==> (r matches Ok(o) ==> o.triples_view() == strip_all(turtle_terms(turtle@)->0)),
    {
        match parse_turtle_terms(turtle) {
            Ok(triples) => Ok(Ontology::from_triples(triples)),
            Err(msg) => Err(Error::InvalidValue(msg)),
        }
    }

    /// Axiom counts for feedback, as a JSON object with its keys in sorted
    /// order (see [`summary_json`]).
    pub fn axiom_summary(&self) -> (r: String)
        ensures
            r@ == summary_json(self.axioms@, self.triples_view().len()),
    {
        let ax = &self.axioms;
        let mut out = owned("{");
        summary_field(&mut out, "disjoint_with", ax.disjoint_with.len() / 2, true);
        summary_field(&mut out, "domains", ax.domains.len(), false);
        summary_field(&mut out, "equivalent_classes", ax.equivalent_classes.len(), false);
        summary_field(&mut out, "equivalent_properties", ax.equivalent_properties.len(), false);
        summary_field(&mut out, "functional_properties", ax.functional_properties.len(), false);
        summary_field(&mut out, "inverse_of", ax.inverse_of.len() / 2, false);
        summary_field(&mut out, "ranges", ax.ranges.len(), false);
        summary_field(&mut out, "subclass_of", ax.subclass_of.len(), false);
        summary_field(&mut out, "subproperty_of", ax.subproperty_of.len(), false);
        summary_field(&mut out, "symmetric_properties", ax.symmetric_properties.len(), false);
        summary_field(&mut out, "total_triples", self.triples.len(), false);
        summary_field(&mut out, "transitive_properties", ax.transitive_properties.len(), false);
        push_str(&mut out, "}");
        out
    }

    /// The number of raw triples in the ontology document.
    pub fn triple_count(&self) -> (n: usize)
        ensures
            n == self.triples_view().len(),
    {
        self.triples.len()
    }
}

/// One `"key":n` member of a JSON object, with the comma that separates it
/// from the member before it.
pub open spec fn json_member(key: Seq<char>, n: nat, first: bool) -> Seq<char> {
    (if first {
        ""@
    } else {
        ","@
    }) + "\""@ + key + "\":"@ + decimal(n)
}

/// The axiom counts of `ax` and the number of raw triples, as serde_json
/// writes the object of them (keys sorted). Pairs stored in both
/// directions (`disjoint_with`, `inverse_of`) count once per axiom.
pub open spec fn summary_json(ax: AxView, triples: nat) -> Seq<char> {
    "{"@ + json_member("disjoint_with"@, ax.disjoint_with.len() / 2, true) + json_member(
        "domains"@,
        ax.domains.len(),
        false,
    ) + json_member("equivalent_classes"@, ax.equivalent_classes.len(), false) + json_member(
        "equivalent_properties"@,
        ax.equivalent_properties.len(),
        false,
    ) + json_member("functional_properties"@, ax.functional_properties.len(), false) + json_member(
        "inverse_of"@,
        ax.inverse_of.len() / 2,
        false,
    ) + json_member("ranges"@, ax.ranges.len(), false) + json_member("subclass_of"@, ax.subclass_of.len(), false)
        + json_member("subproperty_of"@, ax.subproperty_of.len(), false) + json_member(
        "symmetric_properties"@,
        ax.symmetric_properties.len(),
        false,
    ) + json_member("total_triples"@, triples, false) + json_member(
        "transitive_properties"@,
        ax.transitive_properties.len(),
        false,
    ) + "}"@
}

/// Append one member of a JSON object (see [`json_member`]).
fn summary_field(out: &mut String, key: &str, n: usize, first: bool)
    ensures
        final(out)@ == old(out)@ + json_member(key@, n as nat, first),
{
    let ghost o0 = out@;
    let ghost sep = if first {
        ""@
    } else {
        ","@
    };
    if !first {
        push_str(out, ",");
    } else {
        proof {
            reveal_strlit("");
        }
    }
    assert(out@ =~= o0 + sep);
    push_str(out, "\"");
    push_str(out, key);
    push_str(out, "\":");
    let d = usize_to_string(n);
    push_str(out, d.as_str());
    assert(out@ =~= o0 + (sep + "\""@ + key@ + "\":"@ + decimal(n as nat)));
}

/// Every registered ontology's Turtle text parses.
pub open spec fn ontologies_readable(entries: Seq<crate::store::OntologyEntry>) -> bool {
    forall|i: int| 0 <= i < entries.len() ==> turtle_parses(#[trigger] entries[i].turtle@)
}

/// The triples the registered ontologies state, in registration order,
/// when each of them reads and states no anonymous blank node.
pub open spec fn stated_terms(entries: Seq<crate::store::OntologyEntry>) -> Option<Seq<RawView>>
    decreases entries.len(),
{
    if entries.len() == 0 {
        Some(Seq::empty())
    } else {
        match stated_terms(entries.drop_last()) {
            Some(prev) => {
                let t = entries.last().turtle@;
                if anon_free(t) && turtle_terms(t) is Some {
                    Some(prev + turtle_terms(t)->0)
                } else {
                    None
                }
            },
            None => None,
        }
    }
}

/// Ontologies whose triples are stated all read.
pub proof fn lemma_stated_are_readable(entries: Seq<crate::store::OntologyEntry>)
    requires
        stated_terms(entries) is Some,
    ensures
        ontologies_readable(entries),
    decreases entries.len(),
{
    if entries.len() > 0 {
        lemma_stated_are_readable(entries.drop_last());
        assert forall|i: int| 0 <= i < entries.len() implies turtle_parses(#[trigger] entries[i].turtle@) by {
            if i < entries.len() - 1 {
                assert(entries.drop_last()[i] == entries[i]);
            }
        }
    }
}

/// The axioms of the registered ontologies together, where their triples
/// are stated.
pub open spec fn combined_axioms(entries: Seq<crate::store::OntologyEntry>) -> Option<AxView> {
    if entries.len() > 0 && stated_terms(entries) is Some {
        Some(extract_spec(strip_all(stated_terms(entries)->0)))
    } else {
        None
    }
}

impl crate::store::Store {
    /// The union of every registered ontology (their triples, in
    /// registration order), or `None` when none is registered.
    pub fn get_combined_ontologies(&self) -> (r: Result<Option<Ontology>, Error>)
        requires
            self.wf(),
        ensures
            (r matches Ok(None)) <==> self.ontology_entries().len() == 0,
            r matches Ok(Some(o)) ==> o.axioms@ == extract_spec(o.triples_view()) && exists|raw: Seq<RawView>|
                o.triples_view() == strip_all(raw),
            r matches Err(e) ==> e.is_invalid(),
            r is Err <==> !ontologies_readable(self.ontology_entries()),
            stated_terms(self.ontology_entries()) is Some ==> (r matches Ok(Some(o)) ==> o.triples_view()
                == strip_all(stated_terms(self.ontology_entries())->0)),
    {
        let entries = self.list_ontologies();
        if entries.len() == 0 {
            return Ok(None);
        }
        let mut raw: Vec<(String, String, String)> = Vec::new();
        let mut i: usize = 0;
        while i < entries.len()
            invariant
                i <= entries@.len(),
                entries@.len() > 0,
                entries@ == self.ontology_entries(),
                forall|j: int| 0 <= j < i ==> turtle_parses(#[trigger] entries@[j].turtle@),
                stated_terms(entries@.take(i as int)) matches Some(t) ==> raws_view(raw@) == t,
            decreases entries.len() - i,
        {
            proof {
                assert(entries@.take(i + 1).drop_last() =~= entries@.take(i as int));
                assert(entries@.take(i + 1).last() == entries@[i as int]);
            }
            match parse_turtle_terms(entries[i].turtle.as_str()) {
                Ok(ts) => {
                    let ghost head = raw@;
                    let mut k: usize = 0;
                    while k < ts.len()
                        invariant
                            k <= ts@.len(),
                            raws_view(raw@) == raws_view(head) + raws_view(ts@).take(k as int),
                        decreases ts.len() - k,
                    {
                        let ghost before = raw@;
                        raw.push((ts[k].0.clone(), ts[k].1.clone(), ts[k].2.clone()));
                        proof {
                            assert(raws_view(raw@) =~= raws_view(before).push(raws_view(ts@)[k as int]));
                            assert(raws_view(ts@).take(k + 1) =~= raws_view(ts@).take(k as int).push(raws_view(ts@)[k as int]));
                            assert(raws_view(raw@) =~= raws_view(head) + raws_view(ts@).take(k + 1));
                        }
                        k = k + 1;
                    }
                    proof {
                        assert(raws_view(ts@).take(ts@.len() as int) =~= raws_view(ts@));
                    }
                },
                Err(msg) => return Err(Error::InvalidValue(msg)),
            }
            i = i + 1;
        }
        proof {
            assert(entries@.take(entries@.len() as int) =~= entries@);
        }
        Ok(Some(Ontology::from_triples(raw)))
    }
}

} // verus!
