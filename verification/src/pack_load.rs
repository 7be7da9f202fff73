//! Loading a knowledge pack into a store: verify its content hash and its
//! producer record, then re-intern its graph's facts, once per content hash.

use vstd::prelude::*;

use crate::owl::materialize::obj_ok;
use crate::owl::materialize::{lemma_extend_refl, lemma_extend_trans};
use crate::owl::triple::{graph_triples, read_graph, triple_of, triples_view};
use crate::pack::{
    carried_queries, carried_shapes, carry_catalog, graph_canonical, lines_view, query_names, shape_names, hash_text, hashable, json_string_field, read_json_string_field, verify, write_triples,
    NO_MANIFEST, TOO_LARGE,
};
use crate::pack_restore::{debug_quote, debug_text, reader_of, require_format, unknown_format_text, wrong_verb_text, Verb};
use crate::proposal::opt_string;
use crate::store::{facts_view, select, Store};
use crate::text::{owned, push_str, str_eq};
use crate::value::Error;

verus! {

/// What loading a pack installed.
#[derive(Debug, Clone, PartialEq, Eq)]
pub struct UnpackReport {
    /// `loaded` for new content, `unchanged` when this exact content hash was
    /// already loaded.
    pub outcome: String,
    /// Destination graph IRI.
    pub graph: String,
    /// Imported fact count.
    pub facts: usize,
    /// Shape definitions installed.
    pub shapes: usize,
    /// Stored queries installed.
    pub queries: usize,
    /// Entity embeddings restored.
    pub vectors: usize,
    /// Repository commit the pack represents, when it is repository-embedded.
    pub repository_sha: Option<String>,
    /// The loader's current commit.
    pub head_sha: Option<String>,
}

/// Expectations and checkout state supplied while loading a pack.
#[derive(Debug, Clone, Default)]
pub struct LoadOptions<'a> {
    /// Destination graph override.
    pub into: Option<&'a str>,
    /// Repository identity the manifest must carry.
    pub expect_repository: Option<&'a str>,
    /// Current checkout commit, reported back.
    pub head_sha: Option<&'a str>,
}


/// The debug form of an optional string (`Some("…")` or `None`).
pub open spec fn opt_debug(o: Option<Seq<char>>) -> Seq<char> {
    match o {
        Some(s) => "Some("@ + debug_text(s) + ")"@,
        None => "None"@,
    }
}

/// Why the format gate refuses a pack of format `f` to `quipu unpack`, if it
/// does: an unknown format, or a format that another verb (or none) reads.
/// It is checked first, ahead of the graph, the hash and the repository record.
pub open spec fn format_refusal(f: Seq<char>) -> Option<Seq<char>> {
    match reader_of(f) {
        None => Some(unknown_format_text(debug_text(f))),
        Some(reader) => if reader == Some(Verb::Unpack) {
            None
        } else {
            Some(wrong_verb_text(Verb::Unpack, debug_text(f), reader, f))
        },
    }
}

/// The refusal is the format gate's wrong-verb refusal (a `PolicyDenied`);
/// every other refusal is an `InvalidValue`.
pub open spec fn refused_as_wrong_verb(pack: &Store) -> bool {
    pack.manifest_of() matches Some(m) && reader_of(m.pack_format) is Some && reader_of(m.pack_format)
        != Some(Some(Verb::Unpack))
}

/// Why loading `pack` into `dest` with the expected repository `expect` is
/// refused, if it is (checked in this order).
pub open spec fn unpack_refusal(pack: &Store, expect: Option<Seq<char>>) -> Option<Seq<char>> {
    match pack.manifest_of() {
        None => Some(NO_MANIFEST@),
        Some(m) => if format_refusal(m.pack_format) is Some {
            format_refusal(m.pack_format)
        } else { match pack.id_of(m.source_graph) {
            None => Some("unknown graph: "@ + m.source_graph),
            Some(g) => {
                let c = graph_canonical(pack, g);
                if !hashable(c) {
                    Some(TOO_LARGE@)
                } else if hash_text(c) != m.content_hash {
                    Some("pack: HASH MISMATCH: manifest "@ + m.content_hash + ", recomputed "@ + hash_text(c))
                } else {
                    match json_string_field(m.producer, "repository"@) {
                        Err(e) => Some("pack: invalid producer manifest: "@ + e),
                        Ok(repo) => match json_string_field(m.producer, "repository_sha"@) {
                            Err(e) => Some("pack: invalid producer manifest: "@ + e),
                            Ok(_) => match expect {
                                Some(x) => if repo != Some(x) {
                                    Some(
                                        "pack: repository mismatch: expected "@ + debug_text(x) + ", manifest has "@
                                            + opt_debug(repo),
                                    )
                                } else {
                                    None
                                },
                                None => None,
                            },
                        },
                    }
                }
            },
        } },
    }
}


fn opt_debug_text(o: &Option<String>) -> (r: String)
    ensures
        r@ == opt_debug(opt_string(*o)),
{
    match o {
        Some(s) => {
            let mut out = owned("Some(");
            let q = debug_quote(s.as_str());
            push_str(&mut out, q.as_str());
            push_str(&mut out, ")");
            out
        },
        None => owned("None"),
    }
}

fn own_opt_str(o: Option<&str>) -> (r: Option<String>)
    ensures
        opt_string(r) == crate::proposal::opt_str(o),
{
    match o {
        Some(s) => Some(owned(s)),
        None => None,
    }
}

/// Verify a pack and load it into `destination`: its graph's live facts are
/// re-interned into the destination graph (`opts.into`, or the graph the
/// pack was cut from), and the pack's content hash is recorded, so that
/// loading the same content again is a successful no-op.
pub fn unpack_verified(pack: &Store, destination: &mut Store, opts: &LoadOptions, timestamp: &str) -> (r: Result<
    UnpackReport,
    Error,
>)
    requires
        pack.wf(),
        old(destination).wf(),
    ensures
        final(destination).wf(),
        final(destination).terms_extend(old(destination)),
        final(destination).identity() == old(destination).identity(),
        final(destination).ontology_entries() == old(destination).ontology_entries(),
        unpack_refusal(pack, crate::proposal::opt_str(opts.expect_repository)) matches Some(msg) ==> (r matches Err(e)
            && e.text() == msg && (e is PolicyDenied <==> refused_as_wrong_verb(pack)) && *final(destination)
            == *old(destination)),
        unpack_refusal(pack, crate::proposal::opt_str(opts.expect_repository)) is None ==> {
            let m = pack.manifest_of()->0;
            let g = pack.id_of(m.source_graph)->0;
            let graph = match opts.into {
                Some(x) => x@,
                None => m.source_graph,
            };
            let sha = json_string_field(m.producer, "repository_sha"@)->Ok_0;
            &&& old(destination).loaded_packs().contains(m.content_hash) ==> (r matches Ok(rep) && rep.outcome@
                == "unchanged"@ && rep.graph@ == graph && rep.facts == 0 && rep.shapes == 0 && rep.queries == 0
                && rep.vectors == 0 && opt_string(rep.repository_sha) == sha && opt_string(rep.head_sha)
                == crate::proposal::opt_str(opts.head_sha) && *final(destination) == *old(destination))
            &&& !old(destination).loaded_packs().contains(m.content_hash) ==> {
                &&& r matches Ok(rep) ==> {
                    &&& rep.outcome@ == "loaded"@
                    &&& rep.graph@ == graph
                    &&& rep.facts == graph_triples(pack, g).len()
                    &&& rep.shapes == pack.catalog().0.len() && rep.queries == pack.catalog().1.len()
                    &&& rep.vectors == 0
                    &&& opt_string(rep.repository_sha) == sha
                    &&& opt_string(rep.head_sha) == crate::proposal::opt_str(opts.head_sha)
                    &&& final(destination).loaded_packs() == old(destination).loaded_packs().push(m.content_hash)
                    &&& final(destination).id_of(graph) is Some
                    &&& graph_triples(final(destination), final(destination).id_of(graph)->0) == graph_triples(
                        old(destination),
                        final(destination).id_of(graph)->0,
                    ) + graph_triples(pack, g)
                    &&& final(destination).catalog() == (
                        carried_shapes(
                            old(destination).catalog().0,
                            pack.catalog().0,
                            shape_names(pack.catalog().0),
                            timestamp@,
                        ),
                        carried_queries(old(destination).catalog().1, pack.catalog().1, query_names(pack.catalog().1)),
                        old(destination).catalog().2,
                    )
                }
                &&& r is Err ==> final(destination).rows() == old(destination).rows() && (final(destination).terms().len()
                    >= crate::store::MAX_TERMS || final(destination).head() >= crate::store::MAX_TX)
                &&& old(destination).head() < crate::store::MAX_TX && old(destination).terms().len() + 1 + 3
                    * graph_triples(pack, g).len() < crate::store::MAX_TERMS ==> r is Ok
            }
        },
{
    proof {
        lemma_extend_refl(destination);
    }
    let m = match pack.read_manifest() {
        Some(m) => m,
        None => return Err(Error::InvalidValue(owned(NO_MANIFEST))),
    };
    require_format(&m, Verb::Unpack)?;
    let (stored, recomputed, matches) = verify(pack)?;
    if !matches {
        let mut msg = owned("pack: HASH MISMATCH: manifest ");
        push_str(&mut msg, stored.as_str());
        push_str(&mut msg, ", recomputed ");
        push_str(&mut msg, recomputed.as_str());
        return Err(Error::InvalidValue(msg));
    }
    let repository = match read_json_string_field(m.producer.as_str(), "repository") {
        Ok(v) => v,
        Err(e) => {
            let mut msg = owned("pack: invalid producer manifest: ");
            push_str(&mut msg, e.as_str());
            return Err(Error::InvalidValue(msg));
        },
    };
    let repository_sha = match read_json_string_field(m.producer.as_str(), "repository_sha") {
        Ok(v) => v,
        Err(e) => {
            let mut msg = owned("pack: invalid producer manifest: ");
            push_str(&mut msg, e.as_str());
            return Err(Error::InvalidValue(msg));
        },
    };
    if let Some(expected) = opts.expect_repository {
        let same = match &repository {
            Some(x) => str_eq(x.as_str(), expected),
            None => false,
        };
        if !same {
            let mut msg = owned("pack: repository mismatch: expected ");
            let q = debug_quote(expected);
            push_str(&mut msg, q.as_str());
            push_str(&mut msg, ", manifest has ");
            let d = opt_debug_text(&repository);
            push_str(&mut msg, d.as_str());
            return Err(Error::InvalidValue(msg));
        }
    }
    let graph = match opts.into {
        Some(x) => owned(x),
        None => m.source_graph.clone(),
    };
    if destination.has_loaded(m.content_hash.as_str()) {
        return Ok(UnpackReport {
            outcome: owned("unchanged"),
            graph,
            facts: 0,
            shapes: 0,
            queries: 0,
            vectors: 0,
            repository_sha,
            head_sha: own_opt_str(opts.head_sha),
        });
    }
    let g = match pack.lookup(m.source_graph.as_str()) {
        Some(g) => g,
        None => {
            assert(false);
            return Err(Error::InvalidValue(owned(NO_MANIFEST)));
        },
    };
    let triples = read_graph(pack, g);
    proof {
        pack.lemma_selected_known(seq![g], None);
        assert forall|i: int| 0 <= i < triples@.len() implies obj_ok((#[trigger] triples_view(triples@)[i]).2) by {
            assert(triples_view(triples@)[i] == triple_of(pack, select(pack.rows(), seq![g], None)[i]));
        }
    }
    let stamps = pack.current_facts_in_graph(g);
    proof {
        assert(facts_view(stamps@).len() == stamps@.len());
    }
    let ghost d0 = *destination;
    let g_dst = destination.intern(graph.as_str())?;
    let ghost d1 = *destination;
    match write_triples(destination, &triples, &stamps, g_dst, "pack") {
        Ok(()) => {},
        Err(e) => {
            proof {
                lemma_extend_trans(&d0, &d1, destination);
            }
            return Err(e);
        },
    }
    let ghost d2 = *destination;
    proof {
        assert(d2.terms()[g_dst - 1] == d1.terms()[g_dst - 1]);
        d2.lemma_id_of(graph@, g_dst - 1);
        lemma_extend_trans(&d0, &d1, &d2);
        crate::owl_snapshot::lemma_graph_stable(&d0, &d1, g_dst);
    }
    let shape_list = pack.shape_names();
    let query_list = pack.query_names();
    proof {
        assert(lines_view(shape_list@) =~= shape_names(pack.catalog().0));
        assert(lines_view(query_list@) =~= query_names(pack.catalog().1));
    }
    carry_catalog(pack, shape_list.as_slice(), query_list.as_slice(), timestamp, destination);
    destination.record_load(m.content_hash.as_str());
    proof {
        lemma_extend_refl(&d2);
        assert(destination.terms_extend(&d2));
        lemma_extend_trans(&d0, &d2, destination);
        crate::owl_snapshot::lemma_graph_stable(&d2, destination, g_dst);
    }
    Ok(UnpackReport {
        outcome: owned("loaded"),
        graph,
        facts: triples.len(),
        shapes: shape_list.len(),
        queries: query_list.len(),
        vectors: 0,
        repository_sha,
        head_sha: own_opt_str(opts.head_sha),
    })
}

/// Verify a pack and load it into `destination`, into graph `into` when
/// given (see [`unpack_verified`]).
pub fn unpack(pack: &Store, destination: &mut Store, into: Option<&str>, timestamp: &str) -> (r: Result<
    UnpackReport,
    Error,
>)
    requires
        pack.wf(),
        old(destination).wf(),
    ensures
        final(destination).wf(),
        final(destination).terms_extend(old(destination)),
        unpack_refusal(pack, None) matches Some(msg) ==> (r matches Err(e) && e.text() == msg && (e is PolicyDenied
            <==> refused_as_wrong_verb(pack)) && *final(destination) == *old(destination)),
        unpack_refusal(pack, None) is None ==> {
            let m = pack.manifest_of()->0;
            let g = pack.id_of(m.source_graph)->0;
            let graph = match into {
                Some(x) => x@,
                None => m.source_graph,
            };
            &&& old(destination).loaded_packs().contains(m.content_hash) ==> (r matches Ok(rep) && rep.outcome@
                == "unchanged"@ && rep.facts == 0 && rep.shapes == 0 && rep.queries == 0 && rep.vectors == 0
                && *final(destination) == *old(destination))
            &&& !old(destination).loaded_packs().contains(m.content_hash) ==> {
                &&& r matches Ok(rep) ==> {
                    &&& rep.outcome@ == "loaded"@
                    &&& rep.facts == graph_triples(pack, g).len()
                    &&& rep.shapes == pack.catalog().0.len() && rep.queries == pack.catalog().1.len()
                    &&& rep.vectors == 0
                    &&& final(destination).loaded_packs() == old(destination).loaded_packs().push(m.content_hash)
                    &&& final(destination).id_of(graph) is Some
                    &&& graph_triples(final(destination), final(destination).id_of(graph)->0) == graph_triples(
                        old(destination),
                        final(destination).id_of(graph)->0,
                    ) + graph_triples(pack, g)
                    &&& final(destination).catalog() == (
                        carried_shapes(
                            old(destination).catalog().0,
                            pack.catalog().0,
                            shape_names(pack.catalog().0),
                            timestamp@,
                        ),
                        carried_queries(old(destination).catalog().1, pack.catalog().1, query_names(pack.catalog().1)),
                        old(destination).catalog().2,
                    )
                }
                &&& r is Err ==> final(destination).rows() == old(destination).rows() && (final(destination).terms().len()
                    >= crate::store::MAX_TERMS || final(destination).head() >= crate::store::MAX_TX)
                &&& old(destination).head() < crate::store::MAX_TX && old(destination).terms().len() + 1 + 3
                    * graph_triples(pack, g).len() < crate::store::MAX_TERMS ==> r is Ok
            }
        },
{
    let opts = LoadOptions { into, expect_repository: None, head_sha: None };
    unpack_verified(pack, destination, &opts, timestamp)
}

/// Loading is idempotent: once a pack's content hash is recorded, loading
/// the same content again finds it recorded (and so changes nothing).
pub proof fn law_loading_twice_is_a_no_op(loaded: Seq<Seq<char>>, hash: Seq<char>)
    ensures
        loaded.push(hash).contains(hash),
{
    assert(loaded.push(hash)[loaded.len() as int] == hash);
}

} // verus!
