//! The pack format guard: which verb may load which pack.
//!
//! A published pack MERGES into a store (`quipu unpack`); a full pack IS a
//! store and REPLACES the destination (`quipu restore`). The manifest's
//! `pack_format` alone decides whether the verb the operator typed may
//! proceed, and this guard runs before anything else looks at the pack, so
//! that a wrong verb is never reported as a damaged artifact.

use vstd::prelude::*;

use crate::pack::Manifest;
use crate::text::{i64_to_string, owned, push_str, signed_decimal, str_eq};
use crate::value::Error;

verus! {

/// A published pack: current facts, re-interned. Read by `unpack`.
pub const FORMAT_PUBLISHED: &'static str = "1";
/// An interop bundle of plain files. Export-only: nothing reads it back.
pub const FORMAT_TURTLE: &'static str = "1-turtle";
/// A frozen archive graph. Read by `attach`.
pub const FORMAT_FROZEN: &'static str = "2";
/// A lossless whole-store pack. Read by `restore`.
pub const FORMAT_FULL: &'static str = "quipu-pack-full/1";
/// A lossless whole-store pack written as a directory of text. Read by
/// `restore`.
pub const FORMAT_FULL_TEXT: &'static str = "quipu-pack-full-text/1";

/// The verbs that load a pack.
#[derive(Debug, Clone, Copy, PartialEq, Eq, Structural)]
pub enum Verb {
    /// `quipu unpack`: merges a published pack into an existing store.
    Unpack,
    /// `quipu restore`: replaces a store with a full pack.
    Restore,
}

impl Verb {
    /// The pack format the verb reads.
    pub open spec fn format_of(self) -> Seq<char> {
        match self {
            Verb::Unpack => FORMAT_PUBLISHED@,
            Verb::Restore => FORMAT_FULL@,
        }
    }

    /// How the verb appears on a command line.
    pub open spec fn command_of(self) -> Seq<char> {
        match self {
            Verb::Unpack => "quipu unpack"@,
            Verb::Restore => "quipu restore"@,
        }
    }

    /// The pack format this verb reads.
    pub fn format(self) -> (r: &'static str)
        ensures
            r@ == self.format_of(),
    {
        match self {
            Verb::Unpack => FORMAT_PUBLISHED,
            Verb::Restore => FORMAT_FULL,
        }
    }

    /// How the verb appears on a command line.
    pub fn command(self) -> (r: &'static str)
        ensures
            r@ == self.command_of(),
    {
        match self {
            Verb::Unpack => "quipu unpack",
            Verb::Restore => "quipu restore",
        }
    }
}

/// Which verb reads format `f`: `Some(Some(v))` for verb `v`, `Some(None)`
/// for a known format that no load verb reads, `None` for an unknown one.
pub open spec fn reader_of(f: Seq<char>) -> Option<Option<Verb>> {
    if f == FORMAT_PUBLISHED@ {
        Some(Some(Verb::Unpack))
    } else if f == FORMAT_FULL@ || f == FORMAT_FULL_TEXT@ {
        Some(Some(Verb::Restore))
    } else if f == FORMAT_TURTLE@ || f == FORMAT_FROZEN@ {
        Some(None)
    } else {
        None
    }
}

/// The text `format!("{:?}", s)` gives for a string: `s` quoted, with
/// quotes, backslashes and unprintable characters escaped.
pub uninterp spec fn debug_text(s: Seq<char>) -> Seq<char>;

/// A character that a string's debug form writes as itself.
pub open spec fn plain_char(c: char) -> bool {
    ' ' <= c <= '~' && c != '"' && c != '\\'
}

/// The debug form of `s` (std's `Debug` for `str`, through `format!`). The
/// result is a function of `s` alone; for a string of printable ASCII
/// without quotes or backslashes it is `s` between double quotes. What it
/// escapes otherwise is left unsaid.
#[verifier::external_body]
pub(crate) fn debug_quote(s: &str) -> (r: String)
    ensures
        r@ == debug_text(s@),
        (forall|i: int| 0 <= i < s@.len() ==> plain_char(#[trigger] s@[i])) ==> r@ == seq!['"'] + s@ + seq!['"'],
{
    format!("{s:?}")
}

/// The refusal of an unknown format, `quoted` being its debug form.
pub open spec fn unknown_format_text(quoted: Seq<char>) -> Seq<char> {
    "pack_format "@ + quoted
        + " is not a format this build can read. Known formats: \"1\" (published pack, `quipu unpack`), \"quipu-pack-full/1\" (full pack, `quipu restore`), \"quipu-pack-full-text/1\" (full TEXT pack, a DIRECTORY, `quipu restore`), \"1-turtle\" (interop bundle, export-only), \"2\" (frozen archive, `quipu db attach`). Refusing rather than guessing: a pack from a NEWER quipu may carry tables this build would silently drop (aegis-9f899e)."@
}

/// What a refusal says to do instead, for a format read by `reader` (or by
/// no load verb).
pub open spec fn remedy_text(reader: Option<Verb>, f: Seq<char>) -> Seq<char> {
    match reader {
        Some(Verb::Unpack) => "It is read by `quipu unpack <pack>`, which MERGES it into the destination store."@,
        Some(Verb::Restore) => "It is read by `quipu restore <pack>`, which REPLACES the destination store with it."@,
        None => if f == FORMAT_TURTLE@ {
            "It is an interop bundle: a directory of plain files for something that is not quipu to read. Nothing loads it back."@
        } else {
            "It is a frozen archive graph; compose it with `quipu db attach`."@
        },
    }
}

/// The refusal of a known format that `verb` does not read.
pub open spec fn wrong_verb_text(verb: Verb, quoted: Seq<char>, reader: Option<Verb>, f: Seq<char>) -> Seq<char> {
    verb.command_of() + " refuses this pack: it is pack_format "@ + quoted + ", and "@ + verb.command_of()
        + " reads \""@ + verb.format_of() + "\". "@ + remedy_text(reader, f)
        + " The pack itself is intact \u{2014} this is the wrong verb for it, not a damaged artifact (aegis-9f899e)."@
}

/// The refusal of an unknown format, given its debug form `quoted`.
pub fn unknown_format_error(quoted: &str) -> (e: Error)
    ensures
        e is InvalidValue,
        e.text() == unknown_format_text(quoted@),
{
    let mut msg = owned("pack_format ");
    push_str(&mut msg, quoted);
    push_str(
        &mut msg,
        " is not a format this build can read. Known formats: \"1\" (published pack, `quipu unpack`), \"quipu-pack-full/1\" (full pack, `quipu restore`), \"quipu-pack-full-text/1\" (full TEXT pack, a DIRECTORY, `quipu restore`), \"1-turtle\" (interop bundle, export-only), \"2\" (frozen archive, `quipu db attach`). Refusing rather than guessing: a pack from a NEWER quipu may carry tables this build would silently drop (aegis-9f899e).",
    );
    Error::InvalidValue(msg)
}

/// The refusal of format `pack_format` (debug form `quoted`), which is known
/// and read by `reader` rather than by `verb`.
pub fn wrong_verb_error(verb: Verb, quoted: &str, reader: Option<Verb>, pack_format: &str) -> (e: Error)
    ensures
        e is PolicyDenied,
        e.text() == wrong_verb_text(verb, quoted@, reader, pack_format@),
{
    let remedy = match reader {
        Some(Verb::Unpack) => "It is read by `quipu unpack <pack>`, which MERGES it into the destination store.",
        Some(Verb::Restore) => "It is read by `quipu restore <pack>`, which REPLACES the destination store with it.",
        None => if str_eq(pack_format, FORMAT_TURTLE) {
            "It is an interop bundle: a directory of plain files for something that is not quipu to read. Nothing loads it back."
        } else {
            "It is a frozen archive graph; compose it with `quipu db attach`."
        },
    };
    let mut msg = owned(verb.command());
    push_str(&mut msg, " refuses this pack: it is pack_format ");
    push_str(&mut msg, quoted);
    push_str(&mut msg, ", and ");
    push_str(&mut msg, verb.command());
    push_str(&mut msg, " reads \"");
    push_str(&mut msg, verb.format());
    push_str(&mut msg, "\". ");
    push_str(&mut msg, remedy);
    push_str(&mut msg, " The pack itself is intact \u{2014} this is the wrong verb for it, not a damaged artifact (aegis-9f899e).");
    Error::PolicyDenied(msg)
}

/// Which verb reads `pack_format`; an unknown format is an error, never
/// "nothing reads it".
fn reader_for(pack_format: &str) -> (r: Result<Option<Verb>, Error>)
    ensures
        match reader_of(pack_format@) {
            Some(v) => r == Ok::<Option<Verb>, Error>(v),
            None => r matches Err(e) && e is InvalidValue && e.text() == unknown_format_text(debug_text(pack_format@)),
        },
{
    if str_eq(pack_format, FORMAT_PUBLISHED) {
        Ok(Some(Verb::Unpack))
    } else if str_eq(pack_format, FORMAT_FULL) || str_eq(pack_format, FORMAT_FULL_TEXT) {
        Ok(Some(Verb::Restore))
    } else if str_eq(pack_format, FORMAT_TURTLE) || str_eq(pack_format, FORMAT_FROZEN) {
        Ok(None)
    } else {
        let quoted = debug_quote(pack_format);
        Err(unknown_format_error(quoted.as_str()))
    }
}

/// Refuse unless the manifest's format is one `verb` reads: an unknown
/// format is `InvalidValue`, a known format of another verb (or of none) is
/// `PolicyDenied`, naming what does read it.
pub fn require_format(manifest: &Manifest, verb: Verb) -> (r: Result<(), Error>)
    ensures
        match reader_of(manifest.pack_format@) {
            None => r matches Err(e) && e is InvalidValue
                && e.text() == unknown_format_text(debug_text(manifest.pack_format@)),
            Some(reader) => if reader == Some(verb) {
                r is Ok
            } else {
                r matches Err(e) && e is PolicyDenied
                    && e.text() == wrong_verb_text(verb, debug_text(manifest.pack_format@), reader, manifest.pack_format@)
            },
        },
{
    let reader = reader_for(manifest.pack_format.as_str())?;
    let same = match reader {
        Some(v) => v == verb,
        None => false,
    };
    if same {
        return Ok(());
    }
    let quoted = debug_quote(manifest.pack_format.as_str());
    Err(wrong_verb_error(verb, quoted.as_str(), reader, manifest.pack_format.as_str()))
}

/// The refusal of a pack whose recomputed content hash differs from the one
/// its manifest claims.
pub fn hash_mismatch_error(claimed: &str, recomputed: &str) -> (e: Error)
    ensures
        e is InvalidValue,
        e.text() == "pack: HASH MISMATCH: manifest "@ + claimed@ + ", recomputed "@ + recomputed@
            + ". This pack's contents do not match what it claims to be; restoring it would install content nobody signed off on."@,
{
    let mut msg = owned("pack: HASH MISMATCH: manifest ");
    push_str(&mut msg, claimed);
    push_str(&mut msg, ", recomputed ");
    push_str(&mut msg, recomputed);
    push_str(
        &mut msg,
        ". This pack's contents do not match what it claims to be; restoring it would install content nobody signed off on.",
    );
    Error::InvalidValue(msg)
}

/// A restore replaces `destination`, which holds `live_facts` live facts:
/// refused when it holds any, unless `force`.
pub fn check_replacement(destination: &str, live_facts: i64, force: bool) -> (r: Result<(), Error>)
    ensures
        (live_facts > 0 && !force) ==> (r matches Err(e) && e is PolicyDenied
            && e.text() == "quipu restore refuses to replace "@ + destination@ + ": it holds "@
                + signed_decimal(live_facts as int)
                + " live fact(s), and a restore REPLACES the whole store rather than merging into it. Move it aside, point --db at a fresh path, or pass --force if destroying it is what you mean. To ADD this pack's contents to a populated store you want a published pack and `quipu unpack`, not a full pack (aegis-9f899e)."@),
        !(live_facts > 0 && !force) ==> r is Ok,
{
    if live_facts > 0 && !force {
        let mut msg = owned("quipu restore refuses to replace ");
        push_str(&mut msg, destination);
        push_str(&mut msg, ": it holds ");
        let n = i64_to_string(live_facts);
        push_str(&mut msg, n.as_str());
        push_str(
            &mut msg,
            " live fact(s), and a restore REPLACES the whole store rather than merging into it. Move it aside, point --db at a fresh path, or pass --force if destroying it is what you mean. To ADD this pack's contents to a populated store you want a published pack and `quipu unpack`, not a full pack (aegis-9f899e).",
        );
        return Err(Error::PolicyDenied(msg));
    }
    Ok(())
}

/// What a restore did.
#[derive(Debug, Clone, PartialEq, Eq)]
pub struct RestoreReport {
    /// Destination store path that now holds the pack's contents.
    pub destination: String,
    /// The pack's `content_hash`, re-verified before the write.
    pub content_hash: String,
    /// Live fact rows the destination held before being replaced.
    pub replaced_facts: i64,
    /// Table count in the restored store.
    pub tables: i64,
}

/// The format guard never lets a verb through on a format it does not read, and
/// always lets it through on one it does: exactly one verb reads each
/// loadable format, and no verb reads an export-only or unknown one.
pub proof fn law_guard_admits_exactly_the_reader(f: Seq<char>, verb: Verb)
    ensures
        (reader_of(f) == Some(Some(verb))) <==> (
            (verb == Verb::Unpack && f == FORMAT_PUBLISHED@)
            || (verb == Verb::Restore && (f == FORMAT_FULL@ || f == FORMAT_FULL_TEXT@))
        ),
        reader_of(verb.format_of()) == Some(Some(verb)),
{
    reveal_strlit("1");
    reveal_strlit("quipu-pack-full/1");
    reveal_strlit("quipu-pack-full-text/1");
    reveal_strlit("1-turtle");
    reveal_strlit("2");
    assert(FORMAT_PUBLISHED@.len() == 1);
    assert(FORMAT_FROZEN@.len() == 1 && FORMAT_FROZEN@[0] != FORMAT_PUBLISHED@[0]);
    assert(FORMAT_FULL@.len() == 17 && FORMAT_FULL@[16] != FORMAT_FULL_TEXT@[16]);
    assert(FORMAT_FULL_TEXT@.len() == 22);
    assert(FORMAT_TURTLE@.len() == 8);
}

} // verus!
