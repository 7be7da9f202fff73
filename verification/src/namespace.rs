//! Central namespace constants for RDF/OWL/SHACL IRIs.

use vstd::prelude::*;

use crate::text::str_eq;

verus! {
/// Default base namespace for the ontology, used when none is configured.

pub const DEFAULT_BASE_NS: &'static str = "http://aegis.gastown.local/ontology/";

pub const RDF: &'static str = "http://www.w3.org/1999/02/22-rdf-syntax-ns#";

pub const RDFS: &'static str = "http://www.w3.org/2000/01/rdf-schema#";

pub const XSD: &'static str = "http://www.w3.org/2001/XMLSchema#";

pub const PROV: &'static str = "http://www.w3.org/ns/prov#";

pub const SHACL: &'static str = "http://www.w3.org/ns/shacl#";

pub const OWL: &'static str = "http://www.w3.org/2002/07/owl#";

pub const SKOS: &'static str = "http://www.w3.org/2004/02/skos/core#";

pub const BOBBIN: &'static str = DEFAULT_BASE_NS;

/// Base namespace for code/document entity IRIs (as opposed to vocabulary).
pub const CODE_BASE: &'static str = "http://aegis.gastown.local/code/";

pub const QUIPU: &'static str = "https://quipu.dev/ontology/";

/// The reserved meta-graph holding every graph's labels.
pub const META_GRAPH_IRI: &'static str = "urn:quipu:graph:meta";

/// `quipu:freshness` — how current a graph's contents are.
pub const QUIPU_FRESHNESS: &'static str = "https://quipu.dev/ontology/freshness";

/// `quipu:trust` — the graph's trust value (an IRI, ranked by a chain).
pub const QUIPU_TRUST: &'static str = "https://quipu.dev/ontology/trust";

/// `quipu:policyClass` — an obligation token carried by the graph.
pub const QUIPU_POLICY_CLASS: &'static str = "https://quipu.dev/ontology/policyClass";

/// `quipu:durability` — declared recoverability of a graph or statement.
pub const QUIPU_DURABILITY: &'static str = "https://quipu.dev/ontology/durability";

/// `quipu:trustRank` — a trust value's rank within its chain.
pub const QUIPU_TRUST_RANK: &'static str = "https://quipu.dev/ontology/trustRank";

/// `quipu:inChain` — the chain that ranks a trust value.
pub const QUIPU_IN_CHAIN: &'static str = "https://quipu.dev/ontology/inChain";

/// `quipu:dataKind` — what sort of data a graph holds.
pub const QUIPU_DATA_KIND: &'static str = "https://quipu.dev/ontology/dataKind";

/// `quipu:lifecycleState` — a graph's storage lifecycle.
pub const QUIPU_LIFECYCLE_STATE: &'static str = "https://quipu.dev/ontology/lifecycleState";

/// `quipu:frozenInto` — the content hash of the pack a frozen graph moved into.
pub const QUIPU_FROZEN_INTO: &'static str = "https://quipu.dev/ontology/frozenInto";

/// `quipu:frozenAt` — when the freeze happened.
pub const QUIPU_FROZEN_AT: &'static str = "https://quipu.dev/ontology/frozenAt";

/// `quipu:derivedBy` — a statement's derivation method resource.
pub const QUIPU_DERIVED_BY: &'static str = "https://quipu.dev/ontology/derivedBy";

/// `quipu:derivationSystem` — the system capable of executing a method.
pub const QUIPU_DERIVATION_SYSTEM: &'static str = "https://quipu.dev/ontology/derivationSystem";

/// `quipu:derivationQuery` — the query/command understood by that system.
pub const QUIPU_DERIVATION_QUERY: &'static str = "https://quipu.dev/ontology/derivationQuery";

/// `quipu:derivationParams` — canonical JSON parameters for the query.
pub const QUIPU_DERIVATION_PARAMS: &'static str = "https://quipu.dev/ontology/derivationParams";

/// `quipu:distinctFrom` — this entity is deliberately not the object entity.
pub const QUIPU_DISTINCT_FROM: &'static str = "https://quipu.dev/ontology/distinctFrom";

/// RDF reified-statement class.
pub const RDF_STATEMENT: &'static str = "http://www.w3.org/1999/02/22-rdf-syntax-ns#Statement";

/// RDF reified-statement subject predicate.
pub const RDF_SUBJECT: &'static str = "http://www.w3.org/1999/02/22-rdf-syntax-ns#subject";

/// RDF reified-statement predicate predicate.
pub const RDF_PREDICATE: &'static str = "http://www.w3.org/1999/02/22-rdf-syntax-ns#predicate";

/// RDF reified-statement object predicate.
pub const RDF_OBJECT: &'static str = "http://www.w3.org/1999/02/22-rdf-syntax-ns#object";

/// `quipu:Dataset` — the class of a named graph set.
pub const QUIPU_DATASET: &'static str = "https://quipu.dev/ontology/Dataset";

/// `quipu:includesGraph` — a dataset's membership edge.
pub const QUIPU_INCLUDES_GRAPH: &'static str = "https://quipu.dev/ontology/includesGraph";

/// `quipu:Fork` — the class of a persistent named fork's graph.
pub const QUIPU_FORK: &'static str = "https://quipu.dev/ontology/Fork";

/// `quipu:forkTx` — the parent transaction a fork is pinned to.
pub const QUIPU_FORK_TX: &'static str = "https://quipu.dev/ontology/forkTx";

/// `quipu:defaultDataset` — the dataset a graph expects to be activated with.
pub const QUIPU_DEFAULT_DATASET: &'static str = "https://quipu.dev/ontology/defaultDataset";

/// `quipu:recommendsFreshness` — the minimum freshness a producer recommends.
pub const QUIPU_RECOMMENDS_FRESHNESS: &'static str = "https://quipu.dev/ontology/recommendsFreshness";

/// `quipu:recommendsTrust` — the minimum trust value a producer considers safe.
pub const QUIPU_RECOMMENDS_TRUST: &'static str = "https://quipu.dev/ontology/recommendsTrust";

pub const RDF_TYPE: &'static str = "http://www.w3.org/1999/02/22-rdf-syntax-ns#type";

pub const RDFS_LABEL: &'static str = "http://www.w3.org/2000/01/rdf-schema#label";

pub const RDFS_SUBCLASS_OF: &'static str = "http://www.w3.org/2000/01/rdf-schema#subClassOf";

/// `bobbin:imports` — unresolved import edge (target may be literal or ref).
pub const BOBBIN_IMPORTS: &'static str = "http://aegis.gastown.local/ontology/imports";

/// `bobbin:name` — symbol / entity name.
pub const BOBBIN_NAME: &'static str = "http://aegis.gastown.local/ontology/name";

/// `bobbin:language` — programming language of a `CodeModule`.
pub const BOBBIN_LANGUAGE: &'static str = "http://aegis.gastown.local/ontology/language";

/// `bobbin:definedIn` — links a `CodeSymbol` to its parent `CodeModule`.
pub const BOBBIN_DEFINED_IN: &'static str = "http://aegis.gastown.local/ontology/definedIn";

/// `bobbin:filePath` — file path of a `CodeModule`.
pub const BOBBIN_FILE_PATH: &'static str = "http://aegis.gastown.local/ontology/filePath";

pub const XSD_INTEGER: &'static str = "http://www.w3.org/2001/XMLSchema#integer";

pub const XSD_LONG: &'static str = "http://www.w3.org/2001/XMLSchema#long";

pub const XSD_INT: &'static str = "http://www.w3.org/2001/XMLSchema#int";

pub const XSD_SHORT: &'static str = "http://www.w3.org/2001/XMLSchema#short";

pub const XSD_BYTE: &'static str = "http://www.w3.org/2001/XMLSchema#byte";

pub const XSD_NON_NEGATIVE_INTEGER: &'static str = "http://www.w3.org/2001/XMLSchema#nonNegativeInteger";

pub const XSD_POSITIVE_INTEGER: &'static str = "http://www.w3.org/2001/XMLSchema#positiveInteger";

pub const XSD_UNSIGNED_LONG: &'static str = "http://www.w3.org/2001/XMLSchema#unsignedLong";

pub const XSD_UNSIGNED_INT: &'static str = "http://www.w3.org/2001/XMLSchema#unsignedInt";

pub const XSD_DOUBLE: &'static str = "http://www.w3.org/2001/XMLSchema#double";

pub const XSD_FLOAT: &'static str = "http://www.w3.org/2001/XMLSchema#float";

pub const XSD_DECIMAL: &'static str = "http://www.w3.org/2001/XMLSchema#decimal";

pub const XSD_BOOLEAN: &'static str = "http://www.w3.org/2001/XMLSchema#boolean";

pub const XSD_STRING: &'static str = "http://www.w3.org/2001/XMLSchema#string";

/// `rdf:langString` — the datatype oxrdf reports for language-tagged literals.
pub const RDF_LANG_STRING: &'static str = "http://www.w3.org/1999/02/22-rdf-syntax-ns#langString";

/// `owl:sameAs`.
pub const OWL_SAME_AS: &'static str = "http://www.w3.org/2002/07/owl#sameAs";

/// The XSD datatypes whose lexical form is a number.
pub open spec fn numeric_datatype(dt: Seq<char>) -> bool {
    ||| dt == XSD_INTEGER@
    ||| dt == XSD_LONG@
    ||| dt == XSD_INT@
    ||| dt == XSD_SHORT@
    ||| dt == XSD_BYTE@
    ||| dt == XSD_NON_NEGATIVE_INTEGER@
    ||| dt == XSD_POSITIVE_INTEGER@
    ||| dt == XSD_UNSIGNED_LONG@
    ||| dt == XSD_UNSIGNED_INT@
    ||| dt == XSD_DOUBLE@
    ||| dt == XSD_FLOAT@
    ||| dt == XSD_DECIMAL@
}

/// XSD datatypes whose lexical form is a number, for ordering and aggregation.
pub fn is_numeric_datatype(dt: &str) -> (r: bool)
    ensures
        r == numeric_datatype(dt@),
{
    str_eq(dt, XSD_INTEGER) || str_eq(dt, XSD_LONG) || str_eq(dt, XSD_INT) || str_eq(dt, XSD_SHORT)
        || str_eq(dt, XSD_BYTE) || str_eq(dt, XSD_NON_NEGATIVE_INTEGER) || str_eq(dt, XSD_POSITIVE_INTEGER)
        || str_eq(dt, XSD_UNSIGNED_LONG) || str_eq(dt, XSD_UNSIGNED_INT) || str_eq(dt, XSD_DOUBLE)
        || str_eq(dt, XSD_FLOAT) || str_eq(dt, XSD_DECIMAL)
}

} // verus!
